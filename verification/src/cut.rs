//! The choice among the candidates of a round of the terminal's search: they
//! are ranked by the score they lead to, lowest first and the earlier first
//! among equals, and cut to the width of the beam. The search has reached
//! its end when the best of them leads to the score 0.

use crate::terminal::Cand;
use vstd::prelude::*;

verus! {

/// The candidate at place `a` of `s` ranks before the one at place `b`: it
/// leads to a lower score, or to the same score and stands earlier.
pub open spec fn before(s: Seq<Cand>, a: int, b: int) -> bool {
    s[a].eval_score < s[b].eval_score || (s[a].eval_score == s[b].eval_score && a < b)
}

/// `ord` lists the places of `s` in the order of the ranking: every place
/// once, each before those that follow it.
pub open spec fn ranking(s: Seq<Cand>, ord: Seq<int>) -> bool {
    &&& ord.len() == s.len()
    &&& forall|k: int| 0 <= k < ord.len() ==> 0 <= #[trigger] ord[k] < s.len()
    &&& forall|p: int, q: int| 0 <= p < q < ord.len() ==> before(s, #[trigger] ord[p], #[trigger] ord[q])
}

/// `r` holds the candidates of `s` in the order `ord`.
pub open spec fn ordered(s: Seq<Cand>, r: Seq<Cand>, ord: Seq<int>) -> bool {
    &&& r.len() == s.len()
    &&& ranking(s, ord)
    &&& forall|k: int| 0 <= k < r.len() ==> #[trigger] r[k] == s[ord[k]]
}

/// Ranks the candidates: lowest score first, and of two with the same score
/// the one that stood earlier.
pub fn rank(cands: &mut Vec<Cand>)
    ensures
        exists|ord: Seq<int>| #[trigger] ordered(old(cands)@, final(cands)@, ord),
{
    let n = cands.len();
    let ghost was = cands@;
    let ghost mut ord: Seq<int> = Seq::new(n as nat, |k: int| k);
    let mut i: usize = 0;
    while i < n
        invariant
            i <= n,
            n == was.len(),
            cands@.len() == n,
            ord.len() == n,
            forall|k: int| 0 <= k < n ==> #[trigger] cands@[k] == was[ord[k]],
            forall|k: int| 0 <= k < n ==> 0 <= #[trigger] ord[k] < n,
            forall|k: int| i <= k < n ==> #[trigger] ord[k] == k,
            forall|k: int| 0 <= k < i ==> #[trigger] ord[k] < i,
            forall|p: int, q: int| 0 <= p < q < i ==> before(was, #[trigger] ord[p], #[trigger] ord[q]),
        decreases n - i,
    {
        let mut j: usize = i;
        while j > 0 && cands[j].eval_score < cands[j - 1].eval_score
            invariant
                j <= i < n,
                n == was.len(),
                cands@.len() == n,
                ord.len() == n,
                forall|k: int| 0 <= k < n ==> #[trigger] cands@[k] == was[ord[k]],
                forall|k: int| 0 <= k < n ==> 0 <= #[trigger] ord[k] < n,
                forall|k: int| i < k < n ==> #[trigger] ord[k] == k,
                ord[j as int] == i,
                forall|k: int| 0 <= k <= i && k != j ==> #[trigger] ord[k] < i,
                forall|p: int, q: int|
                    0 <= p < q <= i && p != j && q != j ==> before(
                        was,
                        #[trigger] ord[p],
                        #[trigger] ord[q],
                    ),
                forall|q: int| j < q <= i ==> before(was, ord[j as int], #[trigger] ord[q]),
            decreases j,
        {
            let a = cands[j];
            let b = cands[j - 1];
            cands[j] = b;
            cands[j - 1] = a;
            proof {
                let oj = ord[j as int];
                let op = ord[j - 1];
                ord = ord.update(j as int, op).update(j - 1, oj);
            }
            j = j - 1;
        }
        proof {
            assert forall|p: int, q: int| 0 <= p < q < i + 1 implies before(
                was,
                #[trigger] ord[p],
                #[trigger] ord[q],
            ) by {
                if q == j && j > 0 {
                    assert(cands@[j as int] == was[ord[j as int]]);
                    assert(cands@[j - 1] == was[ord[j - 1]]);
                    assert(ord[j - 1] < i);
                    if p < j - 1 {
                        assert(before(was, ord[p], ord[j - 1]));
                    }
                }
            }
        }
        i = i + 1;
    }
    proof {
        assert(ordered(was, cands@, ord));
    }
}

/// The candidates that go on to the next round, and whether the search has
/// reached its end: the first `width` of the ranking, or all if there are
/// fewer; and the end is reached when the best leads to the score 0.
pub fn pick(cands: Vec<Cand>, width: usize) -> (r: (Vec<Cand>, bool))
    requires
        cands@.len() > 0,
        width > 0,
    ensures
        r.0@.len() == (if width < cands@.len() {
            width as int
        } else {
            cands@.len() as int
        }),
        exists|all: Seq<Cand>, ord: Seq<int>| #[trigger]
            ordered(cands@, all, ord) && r.0@ == all.subrange(0, r.0@.len() as int),
        r.1 == (r.0@[0].eval_score == 0),
{
    let mut top = cands;
    rank(&mut top);
    let ghost all = top@;
    top.truncate(width);
    proof {
        assert(top@ =~= all.subrange(0, top@.len() as int));
    }
    let done = top[0].eval_score == 0;
    (top, done)
}

/// The ranking is one: two orders that rank the same candidates are the
/// same order.
pub proof fn ranking_is_one(s: Seq<Cand>, a: Seq<int>, b: Seq<int>)
    requires
        ranking(s, a),
        ranking(s, b),
    ensures
        a == b,
{
    let n = s.len() as int;
    assert forall|k: int| 0 <= k < n implies a[k] == b[k] by {
        lemma_place(s, a, b, k);
        lemma_place(s, b, a, k);
    }
    assert(a =~= b);
}

/// The place at rank `k` of one order does not rank before the place at
/// rank `k` of another.
proof fn lemma_place(s: Seq<Cand>, a: Seq<int>, b: Seq<int>, k: int)
    requires
        ranking(s, a),
        ranking(s, b),
        0 <= k < s.len(),
    ensures
        !before(s, a[k], b[k]),
{
    // The places that rank before `b[k]` are those at the ranks below `k` of
    // `b`: there are `k` of them, and `a[0..=k]` would be `k + 1`.
    if before(s, a[k], b[k]) {
        let below = Set::new(|x: int| 0 <= x < s.len() && before(s, x, b[k]));
        let bs = b.subrange(0, k);
        let asq = a.subrange(0, k + 1);
        assert forall|x: int| below.contains(x) implies bs.to_set().contains(x) by {
            lemma_found(s, b, x);
            let q = choose|q: int| 0 <= q < b.len() && b[q] == x;
            if q >= k {
                if q > k {
                    assert(before(s, b[k], b[q]));
                }
                assert(false);
            }
            assert(bs[q] == x);
        }
        assert forall|x: int| asq.to_set().contains(x) implies below.contains(x) by {
            let p = choose|p: int| 0 <= p < asq.len() && asq[p] == x;
            assert(a[p] == x);
            if p < k {
                assert(before(s, a[p], a[k]));
            }
        }
        assert(asq.no_duplicates()) by {
            assert forall|p: int, q: int| 0 <= p < asq.len() && 0 <= q < asq.len() && p != q implies asq[p]
                != asq[q] by {
                if p < q {
                    assert(before(s, a[p], a[q]));
                } else {
                    assert(before(s, a[q], a[p]));
                }
            }
        }
        asq.unique_seq_to_set();
        vstd::seq_lib::seq_to_set_is_finite(bs);
        bs.lemma_cardinality_of_set();
        vstd::set_lib::lemma_len_subset(below, bs.to_set());
        vstd::set_lib::lemma_len_subset(asq.to_set(), below);
    }
}

/// Every place stands at some rank of an order.
proof fn lemma_found(s: Seq<Cand>, b: Seq<int>, x: int)
    requires
        ranking(s, b),
        0 <= x < s.len(),
    ensures
        exists|q: int| 0 <= q < b.len() && b[q] == x,
{
    assert(b.no_duplicates()) by {
        assert forall|p: int, q: int| 0 <= p < b.len() && 0 <= q < b.len() && p != q implies b[p]
            != b[q] by {
            if p < q {
                assert(before(s, b[p], b[q]));
            } else {
                assert(before(s, b[q], b[p]));
            }
        }
    }
    b.unique_seq_to_set();
    let n = s.len() as int;
    vstd::set_lib::lemma_int_range(0, n);
    let range = vstd::set_lib::set_int_range(0, n);
    assert(b.to_set().subset_of(range)) by {
        assert forall|y: int| b.to_set().contains(y) implies range.contains(y) by {
            let q = choose|q: int| 0 <= q < b.len() && b[q] == y;
            assert(0 <= b[q] < n);
        }
    }
    vstd::set_lib::lemma_subset_equality(b.to_set(), range);
    assert(b.to_set().contains(x));
}

} // verus!
