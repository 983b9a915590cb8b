//! The driver: round after round it ranks the candidates that are due,
//! grows the tree by the best of them, prunes what is spent, and walks the
//! new leaves, until a candidate reaches the goal or the search gives out.

use crate::beam::{
    cnt, cnt_pool, lemma_cnt_member, BeamSearch, Cand, SearchError, NONE,
};
use crate::clock::Clock;
use crate::domain::{path_legal, replay, Domain, Move};
use crate::nth::{select_nth_unstable_by_key, sort_unstable_by_key, sorted, Key};
use crate::walker::{cand_of, filed, lemma_cnt_pool_swap, seed_after, JITTER_LIMIT};
use std::collections::HashSet;
use vstd::prelude::*;

verus! {

/// Largest jitter magnitude, and largest span of turns, that a configuration
/// may name.
pub const JITTER_CAP: u64 = 0x8000_0000;

/// What a search is run with.
#[derive(Clone, Copy, Debug)]
pub struct Config {
    /// Beam width: how many candidates become nodes in one round, at most.
    pub width: usize,
    /// Jitter magnitude at turn 0.
    pub jitter_from: u64,
    /// Jitter magnitude at turn `jitter_span`.
    pub jitter_to: u64,
    /// Number of turns over which the magnitude goes from the one to the other.
    pub jitter_span: u64,
    /// The deadline is looked at every so many turns.
    pub poll_every: usize,
}

impl Config {
    /// The numbers are in range.
    pub open spec fn ok(&self) -> bool {
        &&& self.jitter_from <= JITTER_CAP
        &&& self.jitter_to <= JITTER_CAP
        &&& 1 <= self.jitter_span <= JITTER_CAP
        &&& 1 <= self.poll_every
    }

    /// Whether the numbers are in range.
    pub fn valid(&self) -> (r: bool)
        ensures
            r == self.ok(),
    {
        self.jitter_from <= JITTER_CAP && self.jitter_to <= JITTER_CAP && 1 <= self.jitter_span
            && self.jitter_span <= JITTER_CAP && 1 <= self.poll_every
    }
}

/// The jitter magnitude at `turn`: the value on the line from `from` at turn
/// 0 to `to` at turn `span`, rounded to the nearest integer, halves away from
/// zero, and kept between 1 and the engine's limit.
pub open spec fn jitter_spec(from: int, to: int, span: int, turn: int) -> int {
    let num = from * span + (to - from) * turn;
    if num <= 0 {
        1
    } else {
        let r = (2 * num + span) / (2 * span);
        if r < 1 {
            1
        } else if r > JITTER_LIMIT {
            JITTER_LIMIT as int
        } else {
            r
        }
    }
}

/// The jitter magnitude that `cfg` gives for `turn`.
pub fn jitter(cfg: &Config, turn: usize) -> (r: u64)
    requires
        cfg.ok(),
    ensures
        r == jitter_spec(
            cfg.jitter_from as int,
            cfg.jitter_to as int,
            cfg.jitter_span as int,
            turn as int,
        ),
        1 <= r <= JITTER_LIMIT,
{
    let from = cfg.jitter_from as i128;
    let to = cfg.jitter_to as i128;
    let span = cfg.jitter_span as i128;
    let t = turn as i128;
    assert(0 <= from * span <= 0x8000_0000 * 0x8000_0000) by (nonlinear_arith)
        requires
            0 <= from <= 0x8000_0000,
            0 <= span <= 0x8000_0000,
    ;
    assert(-0x8000_0000 * 0x1_0000_0000_0000_0000 <= (to - from) * t <= 0x8000_0000
        * 0x1_0000_0000_0000_0000) by (nonlinear_arith)
        requires
            -0x8000_0000 <= to - from <= 0x8000_0000,
            0 <= t <= 0x1_0000_0000_0000_0000,
    ;
    let num: i128 = from * span + (to - from) * t;
    if num <= 0 {
        1
    } else {
        let r: i128 = (2 * num + span) / (2 * span);
        if r < 1 {
            1
        } else if r > JITTER_LIMIT as i128 {
            JITTER_LIMIT
        } else {
            r as u64
        }
    }
}

/// The answer of a search: the operations that lead from the state the
/// search started from to a state at the goal, and what the domain reported
/// of that state.
pub struct Answer<O, P> {
    /// The operations, in the order in which they are applied.
    pub path: Vec<O>,
    /// Score of the state the path ends in.
    pub score: i64,
    /// Fingerprint of the state the path ends in.
    pub hash: u64,
    /// Progress of the state the path ends in.
    pub progress: P,
}

/// How a search ended.
pub enum Outcome<O, P> {
    /// A candidate reached the goal.
    Found(Answer<O, P>),
    /// The deadline passed before any candidate reached the goal.
    DeadlineExceeded,
    /// No turn is left: the pool has no bucket for the next one.
    Exhausted,
}

/// Replaying `a.path` from `origin` is legal at every step and ends in a
/// state at the goal of which the answer holds the score and the fingerprint.
pub open spec fn answer_ok<D: Domain>(
    env: &D::Env,
    origin: D::V,
    a: Answer<D::Op, D::Progress>,
) -> bool {
    let end = replay::<D>(env, origin, a.path@);
    &&& path_legal::<D>(env, origin, a.path@)
    &&& D::goal(env, a.progress)
    &&& D::tracks(env, end, a.progress)
    &&& a.score == D::score_of(env, end, a.progress)
    &&& a.hash == D::hash_of(env, end, a.progress)
}

/// Reads the raw score of a candidate as its key.
pub struct ByScore;

/// Reads the ranking key of a candidate, the score with jitter, as its key.
pub struct ByEval;

impl<O: Copy, P: Copy> Key<Cand<O, P>> for ByScore {
    open spec fn key_of(x: Cand<O, P>) -> i64 {
        x.score
    }

    fn key(x: &Cand<O, P>) -> (k: i64) {
        x.score
    }
}

impl<O: Copy, P: Copy> Key<Cand<O, P>> for ByEval {
    open spec fn key_of(x: Cand<O, P>) -> i64 {
        x.eval_score
    }

    fn key(x: &Cand<O, P>) -> (k: i64) {
        x.eval_score
    }
}

/// Number of `true` entries in `s`.
pub open spec fn count_true(s: Seq<bool>) -> nat
    decreases s.len(),
{
    if s.len() == 0 {
        0
    } else {
        count_true(s.drop_last()) + if s.last() {
            1nat
        } else {
            0nat
        }
    }
}

/// The candidates among the first `n` of `cands` that `keep` marks, in
/// order.
pub open spec fn picked<O, P>(cands: Seq<Cand<O, P>>, keep: Seq<bool>, n: int) -> Seq<Cand<O, P>>
    decreases n,
{
    if n <= 0 {
        Seq::empty()
    } else if keep[n - 1] {
        picked(cands, keep, n - 1).push(cands[n - 1])
    } else {
        picked(cands, keep, n - 1)
    }
}

/// Whether the candidate at place `i` of `s` is kept, when the candidates
/// are taken in order, `width` at most are kept, and one is passed over if
/// an earlier kept one has the same key.
pub open spec fn kept<O, P>(s: Seq<Cand<O, P>>, keep: Seq<bool>, width: int, i: int) -> bool {
    &&& count_true(keep.take(i)) < width
    &&& forall|j: int| 0 <= j < i && keep[j] ==> s[j].key != s[i].key
}

/// `ranked` and `keep` are what the selector makes of the candidates `due`
/// for a beam of width `width`: `ranked` holds the same candidates; the `2 *
/// width` with the lowest raw scores come first, in the order of their
/// ranking keys; and `keep` marks a candidate if and only if fewer than
/// `width` are marked before it and none of those has its duplicate key.
pub open spec fn selected<O: Copy, P: Copy>(
    due: Seq<Cand<O, P>>,
    ranked: Seq<Cand<O, P>>,
    keep: Seq<bool>,
    width: int,
) -> bool {
    let m = if 2 * width < ranked.len() {
        2 * width
    } else {
        ranked.len() as int
    };
    &&& ranked.to_multiset() == due.to_multiset()
    &&& ranked.len() == due.len()
    &&& keep.len() == ranked.len()
    &&& count_true(keep) <= width
    &&& forall|i: int| 0 <= i < keep.len() ==> (#[trigger] keep[i] <==> kept(ranked, keep, width, i))
    &&& sorted::<Cand<O, P>, ByEval>(ranked, 0, m)
    &&& forall|i: int, j: int|
        0 <= i < m <= j < ranked.len() ==> (#[trigger] ranked[i]).score <= (#[trigger] ranked[j]).score
}

/// The selector: ranks the candidates and marks those to keep. The `2 *
/// width` candidates with the lowest raw scores come first, in the order of
/// their ranking keys, lowest first. Then the candidates are taken in order,
/// and one is kept unless `width` are kept already or an earlier kept one
/// has the same duplicate key.
#[verifier::rlimit(60)]
pub fn select<O: Copy, P: Copy>(cands: &mut Vec<Cand<O, P>>, width: usize) -> (keep: Vec<bool>)
    ensures
        final(cands)@.to_multiset() == old(cands)@.to_multiset(),
        final(cands)@.len() == old(cands)@.len(),
        keep@.len() == final(cands)@.len(),
        count_true(keep@) <= width,
        selected(old(cands)@, final(cands)@, keep@, width as int),
        forall|i: int|
            0 <= i < keep@.len() ==> (#[trigger] keep@[i] <==> kept(
                final(cands)@,
                keep@,
                width as int,
                i,
            )),
        ({
            let m = if 2 * width < final(cands)@.len() {
                2 * width
            } else {
                final(cands)@.len() as int
            };
            &&& sorted::<Cand<O, P>, ByEval>(final(cands)@, 0, m)
            &&& forall|i: int, j: int|
                0 <= i < m <= j < final(cands)@.len() ==> (#[trigger] final(cands)@[i]).score <= (
                #[trigger] final(cands)@[j]).score
        }),
{
    let n = cands.len();
    let m0: usize = if width > usize::MAX / 2 {
        usize::MAX
    } else {
        2 * width
    };
    if n > m0 {
        select_nth_unstable_by_key::<Cand<O, P>, ByScore>(cands, m0);
    }
    let m: usize = if m0 < n {
        m0
    } else {
        n
    };
    let ghost mid = cands@;
    proof {
        assert forall|i: int, j: int| 0 <= i < m <= j < n implies (#[trigger] mid[i]).score <= (
        #[trigger] mid[j]).score by {
            assert(mid[i].score <= mid[m0 as int].score);
        }
    }
    sort_unstable_by_key::<Cand<O, P>, ByEval>(cands, m);
    proof {
        lemma_prefix_members(mid, cands@, m as int);
        assert forall|i: int, j: int| 0 <= i < m <= j < n implies (#[trigger] cands@[i]).score <= (
        #[trigger] cands@[j]).score by {
            assert(mid.subrange(0, m as int).contains(cands@[i]));
            let k = choose|k: int|
                0 <= k < mid.subrange(0, m as int).len() && mid.subrange(0, m as int)[k]
                    == cands@[i];
            assert(mid[k] == cands@[i]);
            assert(mid[k].score <= mid[j].score);
            assert(cands@[j] == mid[j]);
        }
    }
    let mut set: HashSet<u64> = HashSet::new();
    let mut keep: Vec<bool> = Vec::new();
    let mut total: usize = 0;
    let mut i: usize = 0;
    while i < n
        invariant
            i <= n,
            n == cands.len(),
            keep@.len() == i,
            total == count_true(keep@),
            total <= width,
            forall|x: u64| set@.contains(x) <==> exists|j: int| 0 <= j < i && keep@[j]
                && cands@[j].key == x,
            forall|k: int| 0 <= k < i ==> (#[trigger] keep@[k] <==> kept(cands@, keep@,
                width as int, k)),
        decreases n - i,
    {
        let ghost was = keep@;
        let ghost seen = set@;
        let f = total < width && set.insert(cands[i].key);
        if f {
            total = total + 1;
        }
        keep.push(f);
        proof {
            assert(keep@.drop_last() =~= was);
            assert(keep@.take(i as int) =~= was);
            assert forall|k: int| 0 <= k <= i implies (#[trigger] keep@[k] <==> kept(
                cands@,
                keep@,
                width as int,
                k,
            )) by {
                if k < i {
                    assert(keep@.take(k) =~= was.take(k));
                    assert(was[k] <==> kept(cands@, was, width as int, k));
                }
            }
            assert forall|x: u64| set@.contains(x) <==> exists|j: int|
                0 <= j < i + 1 && keep@[j] && cands@[j].key == x by {
                if set@.contains(x) {
                    if seen.contains(x) {
                        let j = choose|j: int| 0 <= j < i && was[j] && cands@[j].key == x;
                        assert(keep@[j] && cands@[j].key == x);
                    } else {
                        assert(keep@[i as int] && cands@[i as int].key == x);
                    }
                }
                if exists|j: int| 0 <= j < i + 1 && keep@[j] && cands@[j].key == x {
                    let j = choose|j: int| 0 <= j < i + 1 && keep@[j] && cands@[j].key == x;
                    if j < i {
                        assert(was[j] && cands@[j].key == x);
                    }
                }
            }
        }
        i = i + 1;
    }
    keep
}

/// After a rearrangement of the first `m` places that leaves the rest alone,
/// every element among the first `m` was among the first `m` before.
pub proof fn lemma_prefix_members<T>(s: Seq<T>, t: Seq<T>, m: int)
    requires
        0 <= m <= s.len(),
        s.len() == t.len(),
        s.to_multiset() == t.to_multiset(),
        forall|i: int| m <= i < s.len() ==> #[trigger] t[i] == s[i],
    ensures
        forall|i: int| 0 <= i < m ==> s.subrange(0, m).contains(#[trigger] t[i]),
{
    let sp = s.subrange(0, m);
    let tp = t.subrange(0, m);
    let sq = s.subrange(m, s.len() as int);
    let tq = t.subrange(m, t.len() as int);
    assert(sq =~= tq);
    assert(s =~= sp + sq);
    assert(t =~= tp + tq);
    vstd::seq_lib::lemma_multiset_commutative(sp, sq);
    vstd::seq_lib::lemma_multiset_commutative(tp, tq);
    sp.to_multiset_ensures();
    tp.to_multiset_ensures();
    assert forall|i: int| 0 <= i < m implies sp.contains(#[trigger] t[i]) by {
        let x = t[i];
        assert(tp[i] == x);
        assert(tp.contains(x));
        assert(tp.to_multiset().count(x) > 0);
        assert(s.to_multiset().count(x) == sp.to_multiset().count(x) + sq.to_multiset().count(x));
        assert(t.to_multiset().count(x) == tp.to_multiset().count(x) + tq.to_multiset().count(x));
        assert(sp.to_multiset().count(x) > 0);
    }
}

/// The first candidate counts for its parent, and the rest as before.
pub proof fn lemma_cnt_front<O, P>(s: Seq<Cand<O, P>>, x: u32)
    requires
        s.len() > 0,
    ensures
        cnt(s, x) == cnt(s.drop_first(), x) + (if s[0].parent == x {
            1nat
        } else {
            0nat
        }),
    decreases s.len(),
{
    if s.len() == 1 {
        assert(s.drop_last() =~= Seq::<Cand<O, P>>::empty());
        assert(s.drop_first() =~= Seq::<Cand<O, P>>::empty());
    } else {
        lemma_cnt_front(s.drop_last(), x);
        assert(s.drop_first().drop_last() =~= s.drop_last().drop_first());
    }
}

/// The count does not depend on the order of the candidates.
pub proof fn lemma_cnt_permuted<O, P>(s: Seq<Cand<O, P>>, t: Seq<Cand<O, P>>, x: u32)
    requires
        s.to_multiset() == t.to_multiset(),
    ensures
        cnt(s, x) == cnt(t, x),
{
    let f = crate::beam::cnt_step::<O, P>(x);
    assert(vstd::seq_lib::commutative_foldl(f));
    vstd::seq_lib::lemma_fold_left_permutation(s, t, f, 0nat);
}

impl<D: Domain> BeamSearch<D> {
    /// Rearranging the candidates that are being resolved changes nothing.
    pub(crate) proof fn lemma_pool_permuted(
        &self,
        s: Seq<Cand<D::Op, D::Progress>>,
        t: Seq<Cand<D::Op, D::Progress>>,
    )
        requires
            self.shape(),
            self.pool_ok(s),
            s.to_multiset() == t.to_multiset(),
        ensures
            self.pool_ok(t),
    {
        s.to_multiset_ensures();
        t.to_multiset_ensures();
        assert forall|k: int| 0 <= k < t.len() implies self.backed(#[trigger] t[k]) by {
            assert(t.contains(t[k]));
            assert(t.to_multiset().count(t[k]) > 0);
            assert(s.to_multiset().count(t[k]) > 0);
            assert(s.contains(t[k]));
            let j = choose|j: int| 0 <= j < s.len() && s[j] == t[k];
            assert(self.backed(s[j]));
        }
        assert forall|x: int| 0 <= x < self.nodes.len() implies (#[trigger] self.nodes[x]).refs
            == cnt_pool(self.pool@, x as u32) + cnt(t, x as u32) by {
            lemma_cnt_permuted(s, t, x as u32);
        }
    }

    /// Takes the candidates that are due at the next turn out of the pool.
    /// They still count for their parents until they are resolved.
    #[verifier::rlimit(60)]
    pub fn take_due(&mut self) -> (r: Vec<Cand<D::Op, D::Progress>>)
        requires
            old(self).base(),
            old(self).round() + 1 < old(self).buckets().len(),
        ensures
            old(self).que_ok() ==> final(self).que_ok(),
            old(self).harvested() ==> final(self).harvested(),
            r@ == old(self).buckets()[old(self).round() as int + 1]@,
            final(self).buckets()[old(self).round() as int + 1]@.len() == 0,
            forall|b: int|
                0 <= b < old(self).buckets().len() && b != old(self).round() + 1
                    ==> #[trigger] final(self).buckets()[b] == old(self).buckets()[b],
            final(self).tree_ok(),
            final(self).sem_ok(),
            final(self).pool_ok(r@),
            final(self).marks_ok(),
            final(self).que_of() == old(self).que_of(),
            final(self).stands_at(0),
            old(self).fed(final(self)),
            final(self).slots() == old(self).slots(),
    {
        let mut out: Vec<Cand<D::Op, D::Progress>> = Vec::new();
        let b = self.turn + 1;
        std::mem::swap(&mut out, &mut self.pool[b]);
        proof {
            assert(old(self).fed(self));
            old(self).lemma_fed(self);
            old(self).lemma_same_marks(self);
            assert forall|bb: int, k: int|
                0 <= bb < self.pool.len() && 0 <= k < self.pool[bb].len() implies self.backed(
                #[trigger] self.pool[bb][k],
            ) by {
                assert(old(self).backed(old(self).pool[bb][k]));
            }
            assert forall|k: int| 0 <= k < out@.len() implies self.backed(#[trigger] out@[k]) by {
                assert(old(self).backed(old(self).pool[b as int][k]));
            }
            assert forall|x: int| 0 <= x < self.nodes.len() implies (#[trigger] self.nodes[x]).refs
                == cnt_pool(self.pool@, x as u32) + cnt(out@, x as u32) by {
                lemma_cnt_pool_swap(old(self).pool@, self.pool@, b as int, x as u32);
                assert(cnt(self.pool[b as int]@, x as u32) == 0);
                assert(cnt(Seq::<Cand<D::Op, D::Progress>>::empty(), x as u32) == 0);
            }
            if old(self).harvested() {
                assert forall|i: int| #[trigger] self.spent(i) implies self.que@.contains(
                    i as u32,
                ) by {
                    assert(old(self).spent(i));
                }
            }
        }
        out
    }

    /// One candidate was resolved: its parent counts one less.
    pub(crate) proof fn lemma_resolved(
        &self,
        new: &Self,
        extra: Seq<Cand<D::Op, D::Progress>>,
    )
        requires
            extra.len() > 0,
            self.shape(),
            self.pool_ok(extra),
            self.fed(new),
            new.pool == self.pool,
            forall|i: int|
                0 <= i < self.nodes.len() && i != extra[0].parent ==> (#[trigger] new.nodes[i]).refs
                    == self.nodes[i].refs,
            new.nodes[extra[0].parent as int].refs + 1 == self.nodes[extra[0].parent as int].refs,
        ensures
            new.pool_ok(extra.drop_first()),
    {
        let rest = extra.drop_first();
        assert(rest.len() == extra.len() - 1);
        assert forall|b: int, k: int|
            0 <= b < new.pool.len() && 0 <= k < new.pool[b].len() implies new.backed(
            #[trigger] new.pool[b][k],
        ) by {
            assert(self.backed(self.pool[b][k]));
        }
        assert forall|k: int| 0 <= k < rest.len() implies new.backed(#[trigger] rest[k]) by {
            assert(self.backed(extra[k + 1]));
        }
        assert forall|x: int| 0 <= x < new.nodes.len() implies (#[trigger] new.nodes[x]).refs
            == cnt_pool(new.pool@, x as u32) + cnt(rest, x as u32) by {
            lemma_cnt_front(extra, x as u32);
            assert(self.nodes[x].refs == cnt_pool(self.pool@, x as u32) + cnt(extra, x as u32));
        }
    }

    /// A new round: the turn and the generation go up by one.
    pub(crate) proof fn lemma_ticked(&self, new: &Self, extra: Seq<Cand<D::Op, D::Progress>>)
        requires
            self.tree_ok(),
            self.turn + 1 < self.pool.len(),
            new.turn == self.turn + 1,
            new.at == self.at + 1,
            new.env == self.env,
            new.state == self.state,
            new.nodes == self.nodes,
            new.cur_node == self.cur_node,
            new.free == self.free,
            new.pool == self.pool,
            new.ceiling == self.ceiling,
            new.alive == self.alive,
            new.depth == self.depth,
            new.rank == self.rank,
            new.paths == self.paths,
            new.init == self.init,
            new.cap == self.cap,
            new.deep == self.deep,
        ensures
            new.tree_ok(),
            self.sem_ok() ==> new.sem_ok(),
            self.pool_ok(extra) ==> new.pool_ok(extra),
            self.stands_at(0) ==> new.stands_at(0),
            self.marks_ok() ==> new.marks_ok(),
    {
        if self.marks_ok() {
            assert forall|i: int| new.live(i) implies {
                &&& (#[trigger] new.nodes[i]).valid <= new.at
                &&& i != 0 && new.nodes[i].valid == new.at
                    ==> new.nodes[new.nodes[i].parent as int].valid == new.at
            } by {
                assert(self.nodes[i].valid <= self.at);
            }
        }
        assert forall|i: int| new.live(i) implies #[trigger] new.linked(i) by {
            assert(self.linked(i));
        }
        self.lemma_pool_kept(new);
        if self.sem_ok() {
            assert forall|i: int| new.live(i) implies #[trigger] new.sound(i) by {
                assert(self.sound(i));
            }
        }
        if self.pool_ok(extra) {
            assert forall|b: int, k: int|
                0 <= b < new.pool.len() && 0 <= k < new.pool[b].len() implies new.backed(
                #[trigger] new.pool[b][k],
            ) by {
                assert(self.backed(self.pool[b][k]));
            }
            assert forall|k: int| 0 <= k < extra.len() implies new.backed(#[trigger] extra[k]) by {
                assert(self.backed(extra[k]));
            }
        }
    }

    /// The slots of `fresh` hold, in order, the nodes that the candidates of
    /// `want` became: each a leaf of the current generation that records
    /// what its candidate projected.
    pub open(crate) spec fn holds(&self, fresh: Seq<int>, want: Seq<Cand<D::Op, D::Progress>>) -> bool {
        &&& fresh.len() == want.len()
        &&& forall|k: int|
            0 <= k < fresh.len() ==> {
                let n = self.nodes[#[trigger] fresh[k]];
                &&& self.leaf_now(fresh[k])
                &&& n.refs == 0
                &&& n.op == want[k].op
                &&& n.parent == want[k].parent
                &&& n.score == want[k].score
                &&& n.hash == want[k].hash
                &&& n.progress == want[k].progress
            }
        &&& forall|j: int, k: int| 0 <= j < k < fresh.len() ==> fresh[j] != fresh[k]
    }

    /// A node that became the first child of a node that is not fresh joins
    /// the fresh nodes.
    #[verifier::rlimit(60)]
    pub(crate) proof fn lemma_grown_fresh(
        &self,
        new: &Self,
        cand: Cand<D::Op, D::Progress>,
        slot: int,
        fresh: Seq<int>,
    )
        requires
            self.tree_ok(),
            self.live(cand.parent as int),
            self.grown(new, cand, slot),
            self.fresh_ok(fresh),
            !fresh.contains(cand.parent as int),
            new.nodes[slot].valid == new.at,
            forall|i: int|
                0 <= i < self.nodes.len() && i != slot && (#[trigger] new.nodes[i]).valid
                    != self.nodes[i].valid ==> new.marked_child(i),
        ensures
            new.fresh_ok(fresh.push(slot)),
    {
        let more = fresh.push(slot);
        assert forall|k: int| 0 <= k < more.len() implies {
            let f = #[trigger] more[k];
            &&& new.live(f)
            &&& new.nodes[f].valid == new.at
            &&& new.nodes[f].child == NONE
            &&& new.nodes[f].refs == 0
        } by {
            if k < fresh.len() {
                let f = fresh[k];
                assert(self.live(f));
                assert(f != cand.parent as int);
                assert(new.alive@[f] == self.alive@[f]);
                assert(new.nodes[f].child == self.nodes[f].child);
            }
        }
        assert forall|i: int| new.live(i) && (#[trigger] new.nodes[i]).valid
            == new.at implies more.contains(
            i,
        ) || new.marked_child(i) by {
            if i == slot {
                assert(more[fresh.len() as int] == slot);
            } else {
                assert(new.alive@[i] == self.alive@[i]);
                if new.nodes[i].valid == self.nodes[i].valid {
                    if fresh.contains(i) {
                        let k = choose|k: int| 0 <= k < fresh.len() && fresh[k] == i;
                        assert(more[k] == i);
                    } else {
                        assert(self.marked_child(i));
                        let c = choose|c: int|
                            self.live(c) && c != 0 && (#[trigger] self.nodes[c]).parent == i
                                && self.nodes[c].valid == self.at;
                        assert(new.alive@[c] == self.alive@[c]);
                        assert(new.nodes[c].parent == self.nodes[c].parent);
                        assert(new.live(c) && c != 0 && new.nodes[c].parent == i
                            && new.nodes[c].valid == new.at);
                    }
                }
            }
        }
    }

    /// While the fresh nodes stay fresh and no node changes what it records,
    /// the fresh nodes hold what they held.
    pub(crate) proof fn lemma_holds_kept(
        &self,
        new: &Self,
        fresh: Seq<int>,
        want: Seq<Cand<D::Op, D::Progress>>,
    )
        requires
            self.holds(fresh, want),
            new.fresh_ok(fresh),
            new.nodes.len() == self.nodes.len(),
            forall|i: int|
                0 <= i < self.nodes.len() ==> {
                    &&& (#[trigger] new.nodes[i]).op == self.nodes[i].op
                    &&& new.nodes[i].parent == self.nodes[i].parent
                    &&& new.nodes[i].score == self.nodes[i].score
                    &&& new.nodes[i].hash == self.nodes[i].hash
                    &&& new.nodes[i].progress == self.nodes[i].progress
                },
        ensures
            new.holds(fresh, want),
    {
        assert forall|k: int| 0 <= k < fresh.len() implies {
            let n = new.nodes[#[trigger] fresh[k]];
            &&& new.leaf_now(fresh[k])
            &&& n.refs == 0
            &&& n.op == want[k].op
            &&& n.parent == want[k].parent
            &&& n.score == want[k].score
            &&& n.hash == want[k].hash
            &&& n.progress == want[k].progress
        } by {
            assert(self.leaf_now(fresh[k]));
            assert(new.nodes[fresh[k]].op == self.nodes[fresh[k]].op);
        }
    }

    /// A change of the count of a node that is not fresh leaves the fresh
    /// nodes as they are.
    pub(crate) proof fn lemma_fed_fresh(&self, new: &Self, x: int, fresh: Seq<int>)
        requires
            self.fed(new),
            self.fresh_ok(fresh),
            !fresh.contains(x),
            forall|i: int|
                0 <= i < self.nodes.len() ==> (#[trigger] new.nodes[i]).valid == self.nodes[i].valid,
            forall|i: int|
                0 <= i < self.nodes.len() && i != x ==> (#[trigger] new.nodes[i]).refs
                    == self.nodes[i].refs,
        ensures
            new.fresh_ok(fresh),
    {
        assert forall|k: int| 0 <= k < fresh.len() implies {
            let f = #[trigger] fresh[k];
            &&& new.live(f)
            &&& new.nodes[f].valid == new.at
            &&& new.nodes[f].child == NONE
            &&& new.nodes[f].refs == 0
        } by {
            let f = fresh[k];
            assert(self.live(f));
            assert(f != x);
            assert(new.nodes[f].valid == self.nodes[f].valid);
        }
        assert forall|i: int| new.live(i) && (#[trigger] new.nodes[i]).valid
            == new.at implies fresh.contains(
            i,
        ) || new.marked_child(i) by {
            assert(self.nodes[i].valid == self.at);
            if !fresh.contains(i) {
                assert(self.marked_child(i));
                let c = choose|c: int|
                    self.live(c) && c != 0 && (#[trigger] self.nodes[c]).parent == i
                        && self.nodes[c].valid == self.at;
                assert(new.nodes[c].valid == self.nodes[c].valid);
                assert(new.live(c) && c != 0 && new.nodes[c].parent == i && new.nodes[c].valid
                    == new.at);
            }
        }
    }

    /// What holds while the candidates of a round are resolved: all is in
    /// order with `rest` still to resolve, and the nodes of `fresh` are
    /// those that the candidates of `want` became, and the only spent ones.
    pub open(crate) spec fn resolving(
        &self,
        rest: Seq<Cand<D::Op, D::Progress>>,
        fresh: Seq<int>,
        want: Seq<Cand<D::Op, D::Progress>>,
    ) -> bool {
        &&& self.tree_ok()
        &&& self.sem_ok()
        &&& self.pool_ok(rest)
        &&& self.marks_ok()
        &&& self.stands_at(0)
        &&& self.fresh_ok(fresh)
        &&& self.holds(fresh, want)
        &&& forall|y: int| #[trigger] self.spent(y) ==> fresh.contains(y)
    }

    /// `new` has the round, the generation, the ceiling, the tables, the
    /// origin, the pool and the root's progress of this engine.
    pub open(crate) spec fn same_round(&self, new: &Self) -> bool {
        &&& new.turn == self.turn
        &&& new.at == self.at
        &&& new.ceiling == self.ceiling
        &&& new.init == self.init
        &&& new.env == self.env
        &&& new.pool == self.pool
        &&& new.nodes[0].progress == self.nodes[0].progress
    }

    /// Slot `i` holds in `new` the node that it holds in this engine: the
    /// same operation, parent, score, fingerprint and progress, on the same
    /// path; links, count and mark may differ.
    pub open(crate) spec fn stays(&self, new: &Self, i: int) -> bool {
        &&& self.live(i)
        &&& new.nodes[i].op == self.nodes[i].op
        &&& new.nodes[i].parent == self.nodes[i].parent
        &&& new.nodes[i].score == self.nodes[i].score
        &&& new.nodes[i].hash == self.nodes[i].hash
        &&& new.nodes[i].progress == self.nodes[i].progress
        &&& new.paths@[i] == self.paths@[i]
    }

    /// Every node of `new` is one of `fresh` or a node of this engine that
    /// stays.
    pub open(crate) spec fn carried(&self, new: &Self, fresh: Seq<int>) -> bool {
        forall|i: int| #[trigger] new.live(i) ==> fresh.contains(i) || self.stays(new, i)
    }

    /// A step that leaves every node in its slot carries on what was
    /// carried.
    pub(crate) proof fn lemma_carried(&self, mid: &Self, new: &Self, fresh: Seq<int>)
        requires
            self.carried(mid, fresh),
            forall|i: int| #[trigger] new.live(i) ==> mid.stays(new, i),
        ensures
            self.carried(new, fresh),
    {
        assert forall|i: int| #[trigger] new.live(i) implies fresh.contains(i) || self.stays(
            new,
            i,
        ) by {
            assert(mid.stays(new, i));
            assert(mid.live(i));
        }
    }

    /// Every candidate of a round is resolved: the engine is ready for the
    /// next walk, the nodes that the kept candidates became are its newest
    /// leaves, there are no more new leaves than candidates were kept, and
    /// every other node is a node of the engine `was` before the step.
    pub open(crate) spec fn done(
        &self,
        was: &Self,
        cands: Seq<Cand<D::Op, D::Progress>>,
        keep: Seq<bool>,
    ) -> bool {
        &&& self.wf()
        &&& self.now_leaves().finite()
        &&& self.now_leaves().len() <= count_true(keep)
        &&& exists|fresh: Seq<int>| #[trigger]
            self.holds(fresh, picked(cands, keep, cands.len() as int)) && was.carried(self, fresh)
    }

    /// The lifecycle step on the candidates `cands` with the marks `keep`
    /// has come from the engine `was` to the end `r` in this engine. It has
    /// failed for want of a
    /// slot if and only if the arena is full and a candidate that is to be
    /// kept is the next to resolve, the earlier ones being resolved.
    /// Otherwise every candidate is resolved, and the step has failed if and
    /// only if the root is left without children and without waiting
    /// candidates.
    pub open(crate) spec fn settles(
        &self,
        was: &Self,
        r: Result<(), SearchError>,
        cands: Seq<Cand<D::Op, D::Progress>>,
        keep: Seq<bool>,
    ) -> bool {
        &&& (r matches Err(SearchError::ResourceExhausted)) <==> (self.full() && exists|
            i: int,
            fresh: Seq<int>,
        |
            0 <= i < cands.len() && keep[i] && #[trigger] self.resolving(
                cands.subrange(i, cands.len() as int),
                fresh,
                picked(cands, keep, i),
            ) && was.carried(self, fresh))
        &&& !(r matches Err(SearchError::ResourceExhausted)) ==> self.done(was, cands, keep)
        &&& (r matches Err(SearchError::TreeCollapsed)) <==> self.bare()
    }

    /// What a step makes of this engine it makes of an engine `was` that
    /// has the same nodes on the same paths.
    pub(crate) proof fn lemma_settles_from(
        &self,
        was: &Self,
        new: &Self,
        r: Result<(), SearchError>,
        cands: Seq<Cand<D::Op, D::Progress>>,
        keep: Seq<bool>,
    )
        requires
            new.settles(self, r, cands, keep),
            was.nodes@ == self.nodes@,
            was.paths@ == self.paths@,
            was.alive@ == self.alive@,
        ensures
            new.settles(was, r, cands, keep),
    {
        assert forall|fresh: Seq<int>| self.carried(new, fresh) implies was.carried(new, fresh) by {
            assert forall|i: int| #[trigger] new.live(i) implies fresh.contains(i) || was.stays(
                new,
                i,
            ) by {
                if !fresh.contains(i) {
                    assert(self.stays(new, i));
                }
            }
        }
        if !(r matches Err(SearchError::ResourceExhausted)) {
            let fresh = choose|fresh: Seq<int>| #[trigger]
                new.holds(fresh, picked(cands, keep, cands.len() as int)) && self.carried(
                    new,
                    fresh,
                );
            assert(new.holds(fresh, picked(cands, keep, cands.len() as int)) && was.carried(
                new,
                fresh,
            ));
        } else {
            let (i, fresh) = choose|i: int, fresh: Seq<int>|
                0 <= i < cands.len() && keep[i] && #[trigger] new.resolving(
                    cands.subrange(i, cands.len() as int),
                    fresh,
                    picked(cands, keep, i),
                ) && self.carried(new, fresh);
            assert(new.resolving(cands.subrange(i, cands.len() as int), fresh, picked(cands, keep, i))
                && was.carried(new, fresh));
        }
    }

    /// A root without children stands alone in the tree.
    pub(crate) proof fn lemma_bare_alone(&self)
        requires
            self.tree_ok(),
            self.nodes[0].child == NONE,
        ensures
            forall|i: int| self.live(i) ==> i == 0,
    {
        assert forall|i: int| self.live(i) implies i == 0 by {
            if i != 0 {
                self.lemma_root_has_child(i);
            }
        }
    }

    /// Where the root is left bare while candidates are resolved, none is
    /// left to resolve and none was kept: the step is done.
    pub(crate) proof fn lemma_collapsed(
        &self,
        was: &Self,
        extra: Seq<Cand<D::Op, D::Progress>>,
        keep: Seq<bool>,
        i: int,
        fresh: Seq<int>,
    )
        requires
            was.carried(self, fresh),
            0 <= i <= extra.len(),
            keep.len() == extra.len(),
            self.resolving(extra.subrange(i, extra.len() as int), fresh, picked(extra, keep, i)),
            fresh.len() == count_true(keep.take(i)),
            self.bare(),
            forall|k: int| 0 <= k < extra.len() ==> (#[trigger] extra[k]).parent != NONE,
        ensures
            i == extra.len(),
            count_true(keep) == 0,
            self.done(was, extra, keep),
    {
        let rest = extra.subrange(i, extra.len() as int);
        let want = picked(extra, keep, i);
        self.lemma_bare_alone();
        assert(self.linked(0));
        if rest.len() > 0 {
            assert(self.backed(rest[0]));
            lemma_cnt_member(rest, 0);
            assert(self.live(rest[0].parent as int));
            assert(self.nodes[0].refs == cnt_pool(self.pool@, 0u32) + cnt(rest, 0u32));
            assert(false);
        }
        if fresh.len() > 0 {
            assert(self.leaf_now(fresh[0]));
            assert(fresh[0] == 0);
            lemma_picked_from(extra, keep, i);
            assert(extra.contains(want[0]));
            let k = choose|k: int| 0 <= k < extra.len() && extra[k] == want[0];
            assert(extra[k].parent != NONE);
            assert(self.nodes[fresh[0]].parent == want[0].parent);
            assert(self.nodes[0].parent == NONE);
            assert(false);
        }
        assert(rest =~= Seq::<Cand<D::Op, D::Progress>>::empty());
        assert(keep.take(i) =~= keep);
        self.lemma_leaves_bounded(fresh);
        assert(self.holds(fresh, picked(extra, keep, extra.len() as int)) && was.carried(
            self,
            fresh,
        ));
    }

    /// Resolves the candidate `c`, the first of `rest`, by making it a node.
    #[verifier::rlimit(80)]
    pub(crate) fn keep_one(
        &mut self,
        c: Cand<D::Op, D::Progress>,
        Ghost(rest): Ghost<Seq<Cand<D::Op, D::Progress>>>,
        Ghost(fresh): Ghost<Seq<int>>,
        Ghost(want): Ghost<Seq<Cand<D::Op, D::Progress>>>,
    ) -> (r: Result<Ghost<Seq<int>>, SearchError>)
        requires
            old(self).resolving(rest, fresh, want),
            rest.len() > 0,
            rest[0] == c,
            !D::goal(old(self).tables(), c.progress),
        ensures
            r is Err <==> old(self).spare() == 0 && old(self).slots().len() >= old(self).limit(),
            r matches Err(e) ==> e == SearchError::ResourceExhausted && *final(self) == *old(self),
            r matches Ok(more) ==> {
                &&& final(self).resolving(rest.drop_first(), more@, want.push(c))
                &&& more@.len() == fresh.len() + 1
                &&& old(self).same_round(final(self))
                &&& final(self).room() == old(self).room() - 1
                &&& more@ == fresh.push(more@.last())
                &&& forall|i: int| #[trigger]
                    final(self).live(i) ==> i == more@.last() || old(self).stays(final(self), i)
            },
    {
        proof {
            assert(self.backed(rest[0]));
            lemma_cnt_member(rest, 0);
            assert(self.linked(c.parent as int));
            assert(self.linked(0));
            if fresh.contains(c.parent as int) {
                let k = choose|k: int| 0 <= k < fresh.len() && fresh[k] == c.parent as int;
                assert(self.nodes[fresh[k]].refs == 0);
            }
        }
        let parent = c.parent as usize;
        let ghost before = *self;
        match self.add_node(c) {
            Err(e) => {
                return Err(e);
            },
            Ok(_) => {},
        }
        let ghost slot = self.nodes[c.parent as int].child as int;
        let ghost more = fresh.push(slot);
        proof {
            before.lemma_grown(self, c, slot, rest);
            before.lemma_grown_fresh(self, c, slot, fresh);
            assert(self.linked(0));
            assert(!more.contains(c.parent as int)) by {
                if more.contains(c.parent as int) {
                    let k = choose|k: int| 0 <= k < more.len() && more[k] == c.parent as int;
                    if k < fresh.len() {
                        assert(fresh[k] == c.parent as int);
                    }
                }
            }
            let goal = want.push(c);
            assert forall|k: int| 0 <= k < more.len() implies {
                let n = self.nodes[#[trigger] more[k]];
                &&& self.leaf_now(more[k])
                &&& n.refs == 0
                &&& n.op == goal[k].op
                &&& n.parent == goal[k].parent
                &&& n.score == goal[k].score
                &&& n.hash == goal[k].hash
                &&& n.progress == goal[k].progress
            } by {
                if k < fresh.len() {
                    let f = fresh[k];
                    assert(before.leaf_now(f));
                    assert(f != slot);
                    assert(self.alive@[f] == before.alive@[f]);
                    assert(self.nodes[f].op == before.nodes[f].op);
                }
            }
            assert forall|j: int, k: int| 0 <= j < k < more.len() implies more[j] != more[k] by {
                assert(before.leaf_now(fresh[j]));
            }
            assert(self.holds(more, goal));
            assert forall|y: int| #[trigger] self.spent(y) implies more.contains(y) by {
                if y == slot {
                    assert(more[fresh.len() as int] == slot);
                } else {
                    assert(self.alive@[y] == before.alive@[y]);
                    assert(self.nodes[y].refs == before.nodes[y].refs);
                    assert(before.spent(y));
                    let k = choose|k: int| 0 <= k < fresh.len() && fresh[k] == y;
                    assert(more[k] == y);
                }
            }
        }
        let ghost mid = *self;
        proof {
            assert forall|i: int| #[trigger] mid.live(i) implies i == slot || before.stays(&mid, i) by {
                if i != slot {
                    assert(mid.alive@[i] == before.alive@[i]);
                    assert(mid.paths@[i] == before.paths@[i]);
                    assert(mid.nodes[i].op == before.nodes[i].op);
                }
            }
        }
        self.nodes[parent].refs = self.nodes[parent].refs - 1;
        proof {
            assert forall|i: int| #[trigger] self.live(i) implies i == slot || before.stays(self, i) by {
                assert(mid.live(i));
                assert(self.nodes[i].op == mid.nodes[i].op);
            }
            assert(more.last() == slot);
            assert(mid.fed(self));
            mid.lemma_fed(self);
            mid.lemma_same_marks(self);
            mid.lemma_resolved(self, rest);
            mid.lemma_fed_fresh(self, c.parent as int, more);
            assert forall|y: int| #[trigger] self.spent(y) implies more.contains(y) by {
                assert(y != c.parent);
                assert(mid.spent(y));
            }
            mid.lemma_holds_kept(self, more, want.push(c));
        }
        Ok(Ghost(more))
    }

    /// Resolves the candidate `c`, the first of `rest`, by dropping it; its
    /// parent leaves the tree if that leaves it spent. Fails where that
    /// takes the last descendant of the root out of the tree.
    #[verifier::rlimit(80)]
    pub(crate) fn drop_one(
        &mut self,
        c: Cand<D::Op, D::Progress>,
        Ghost(rest): Ghost<Seq<Cand<D::Op, D::Progress>>>,
        Ghost(fresh): Ghost<Seq<int>>,
        Ghost(want): Ghost<Seq<Cand<D::Op, D::Progress>>>,
    ) -> (r: Result<(), SearchError>)
        requires
            old(self).resolving(rest, fresh, want),
            rest.len() > 0,
            rest[0] == c,
        ensures
            final(self).resolving(rest.drop_first(), fresh, want),
            old(self).same_round(final(self)),
            final(self).room() >= old(self).room(),
            c.parent == 0 ==> final(self).room() == old(self).room(),
            forall|i: int| #[trigger] final(self).live(i) ==> old(self).stays(final(self), i),
            r matches Err(e) ==> e == SearchError::TreeCollapsed && final(self).slots()[0].child
                == NONE && final(self).slots()[0].refs == 0 && final(self).spare() > 0,
    {
        proof {
            assert(self.backed(rest[0]));
            lemma_cnt_member(rest, 0);
            assert(self.linked(c.parent as int));
            assert(self.linked(0));
            if fresh.contains(c.parent as int) {
                let k = choose|k: int| 0 <= k < fresh.len() && fresh[k] == c.parent as int;
                assert(self.nodes[fresh[k]].refs == 0);
            }
        }
        let parent = c.parent as usize;
        let ghost next = rest.drop_first();
        let ghost mid = *self;
        self.nodes[parent].refs = self.nodes[parent].refs - 1;
        proof {
            assert(mid.fed(self));
            mid.lemma_fed(self);
            mid.lemma_same_marks(self);
            mid.lemma_resolved(self, rest);
            mid.lemma_fed_fresh(self, c.parent as int, fresh);
            assert forall|y: int| #[trigger] self.spent(y) && y != c.parent implies fresh.contains(
                y,
            ) by {
                assert(mid.spent(y));
            }
            mid.lemma_holds_kept(self, fresh, want);
        }
        if parent != 0 && self.nodes[parent].refs == 0 && self.nodes[parent].child == NONE {
            let ghost before = *self;
            proof {
                if self.nodes[parent as int].valid == self.at {
                    assert(self.marked_child(parent as int));
                    let k = choose|k: int|
                        self.live(k) && k != 0 && (#[trigger] self.nodes[k]).parent == parent
                            && self.nodes[k].valid == self.at;
                    self.lemma_first_child(k);
                }
            }
            let gone = self.del_node(c.parent);
            proof {
                before.lemma_pruned(self, next);
                before.lemma_pruned_fresh(self, c.parent as int, fresh);
                before.lemma_holds_kept(self, fresh, want);
                assert forall|y: int| #[trigger] self.spent(y) implies fresh.contains(y) by {
                    assert(before.live(y));
                    assert(self.nodes[y] == (crate::beam::Node {
                        child: self.nodes[y].child,
                        prev: self.nodes[y].prev,
                        next: self.nodes[y].next,
                        ..before.nodes[y]
                    }));
                    assert(before.nodes[y].child == NONE);
                    assert(before.spent(y));
                }
                assert(self.linked(0));
            }
            return gone;
        }
        Ok(())
    }

    /// The lifecycle step of a round. The turn and the generation go up by
    /// one. The leaves that the last walk found spent leave the tree. Then
    /// the candidates are resolved in order: one that is marked in `keep`
    /// becomes a node, one that is not is dropped; either way its parent
    /// counts one candidate less, and a parent left without children and
    /// without waiting candidates leaves the tree, with every ancestor that
    /// is then left so; every slot that leaves the tree goes to the free
    /// pool. The step has three ends, and `settles` says which comes:
    /// it fails for want of a slot if and only if it stops, the arena full,
    /// at a candidate that is to be kept, with the earlier ones resolved;
    /// otherwise it resolves every candidate, and then fails if and only if
    /// the root is left without children and without waiting candidates,
    /// and succeeds if not. It runs out of slots only where more candidates
    /// are to be kept than the arena had room for at the start, and always
    /// where as many are to be kept as the arena may hold slots, the root's
    /// among them; from a root that stands alone, it runs out of slots if
    /// and only if more are to be kept than the arena has room for.
    #[verifier::rlimit(60)]
    pub fn update(&mut self, cands: Vec<Cand<D::Op, D::Progress>>, keep: &Vec<bool>) -> (r: Result<
        (),
        SearchError,
    >)
        requires
            old(self).tree_ok(),
            old(self).sem_ok(),
            old(self).pool_ok(cands@),
            old(self).marks_ok(),
            old(self).que_ok(),
            old(self).harvested(),
            old(self).stands_at(0),
            old(self).round() + 1 < old(self).buckets().len(),
            keep@.len() == cands@.len(),
            forall|i: int|
                0 <= i < cands@.len() && keep@[i] ==> !D::goal(
                    old(self).tables(),
                    (#[trigger] cands@[i]).progress,
                ),
        ensures
            final(self).tree_ok(),
            final(self).sem_ok(),
            final(self).round() == old(self).round() + 1,
            final(self).generation() == old(self).generation() + 1,
            final(self).origin() == old(self).origin(),
            final(self).tables() == old(self).tables(),
            final(self).slots()[0].progress == old(self).slots()[0].progress,
            final(self).buckets() == old(self).buckets(),
            final(self).limit() == old(self).limit(),
            final(self).settles(old(self), r, cands@, keep@),
            r matches Err(SearchError::ResourceExhausted) ==> count_true(keep@) > old(self).room(),
            count_true(keep@) >= old(self).limit() ==> r matches Err(SearchError::ResourceExhausted),
            r matches Err(SearchError::TreeCollapsed) ==> count_true(keep@) == 0,
            old(self).slots().len() == 1 ==> (r matches Err(SearchError::ResourceExhausted)
                <==> count_true(keep@) > old(self).room()),
            forall|i: int|
                0 < i < final(self).slots().len() && !final(self).live(i)
                    ==> #[trigger] final(self).pooled(i),
    {
        let ghost extra = cands@;
        self.turn = self.turn + 1;
        self.at = self.at + 1;
        let mut que: Vec<u32> = Vec::new();
        std::mem::swap(&mut que, &mut self.que);
        proof {
            assert forall|k: int| 0 <= k < extra.len() implies (#[trigger] extra[k]).parent
                != NONE && extra[k].parent < old(self).nodes.len() by {
                assert(old(self).backed(extra[k]));
            }
            old(self).lemma_ticked(self, extra);
            assert(old(self).carried(self, Seq::<int>::empty()));
            assert(self.linked(0));
            assert forall|i: int| self.live(i) implies (#[trigger] self.nodes[i]).valid < self.at by {
                assert(old(self).nodes[i].valid <= old(self).at);
            }
            assert forall|i: int| #[trigger] self.spent(i) implies exists|k: int|
                0 <= k < que.len() && que[k] == i as u32 by {
                assert(old(self).spent(i));
                assert(old(self).que@.contains(i as u32));
            }
        }
        let mut j: usize = 0;
        while j < que.len()
            invariant
                j <= que.len(),
                extra == cands@,
                keep@.len() == cands@.len(),
                forall|k: int| 0 <= k < extra.len() ==> (#[trigger] extra[k]).parent != NONE,
                forall|k: int| 0 <= k < extra.len() ==> (#[trigger] extra[k]).parent < old(self).nodes.len(),
                old(self).carried(self, Seq::<int>::empty()),
                old(self).nodes.len() == 1 ==> self.room() == old(self).room(),
                self.tree_ok(),
                self.sem_ok(),
                self.pool_ok(extra),
                self.marks_ok(),
                self.stands_at(0),
                self.turn == old(self).turn + 1,
                self.at == old(self).at + 1,
                self.ceiling == old(self).ceiling,
                self.init == old(self).init,
                self.env == old(self).env,
                self.pool == old(self).pool,
                self.nodes[0].progress == old(self).nodes[0].progress,
                self.room() >= old(self).room(),
                forall|i: int| self.live(i) ==> (#[trigger] self.nodes[i]).valid < self.at,
                forall|i: int| #[trigger]
                    self.spent(i) ==> exists|k: int| j <= k < que.len() && que[k] == i as u32,
                forall|k: int|
                    j <= k < que.len() ==> {
                        let q = #[trigger] que[k];
                        &&& self.live(q as int)
                        &&& self.nodes[q as int].child == NONE
                        &&& self.nodes[q as int].refs == 0
                    },
                forall|k: int, l: int| 0 <= k < l < que.len() ==> que[k] != que[l],
            decreases que.len() - j,
        {
            let q = que[j];
            proof {
                if q == 0 {
                    assert forall|i: int| #[trigger] self.spent(i) implies exists|k: int|
                        j + 1 <= k < que.len() && que[k] == i as u32 by {
                        let k = choose|k: int| j <= k < que.len() && que[k] == i as u32;
                        assert(k != j);
                    }
                }
            }
            if q != 0 {
                let ghost before = *self;
                proof {
                    assert(self.live(q as int));
                    assert(old(self).nodes.len() > 1);
                }
                let gone = self.del_node(q);
                proof {
                    old(self).lemma_carried(&before, self, Seq::<int>::empty());
                    before.lemma_pruned(self, extra);
                    assert forall|i: int| self.live(i) implies (#[trigger] self.nodes[i]).valid
                        < self.at by {
                        assert(before.live(i));
                        assert(before.nodes[i].valid < before.at);
                    }
                    assert forall|i: int| #[trigger] self.spent(i) implies exists|k: int|
                        j + 1 <= k < que.len() && que[k] == i as u32 by {
                        assert(before.live(i));
                        assert(self.nodes[i] == (crate::beam::Node {
                            child: self.nodes[i].child,
                            prev: self.nodes[i].prev,
                            next: self.nodes[i].next,
                            ..before.nodes[i]
                        }));
                        assert(before.nodes[i].child == NONE);
                        assert(before.spent(i));
                        let k = choose|k: int| j <= k < que.len() && que[k] == i as u32;
                        assert(k != j);
                    }
                    assert forall|k: int| j < k < que.len() implies {
                        let q2 = #[trigger] que[k];
                        &&& self.live(q2 as int)
                        &&& self.nodes[q2 as int].child == NONE
                        &&& self.nodes[q2 as int].refs == 0
                    } by {
                        let q2 = que[k];
                        assert(before.live(q2 as int));
                        assert(q2 != q);
                        assert(self.alive@[q2 as int]);
                    }
                }
                if let Err(e) = gone {
                    proof {
                        self.lemma_bare_alone();
                        let none = Seq::<int>::empty();
                        assert(keep@.take(0) =~= Seq::<bool>::empty());
                        assert(extra.subrange(0, extra.len() as int) =~= extra);
                        assert(self.holds(none, picked(extra, keep@, 0)));
                        assert(self.resolving(extra, none, picked(extra, keep@, 0)));
                        self.lemma_collapsed(old(self), extra, keep@, 0, none);
                    }
                    return Err(e);
                }
            }
            j = j + 1;
        }
        let ghost mut fresh: Seq<int> = Seq::empty();
        proof {
            assert(keep@.take(0) =~= Seq::<bool>::empty());
            assert(self.holds(fresh, picked(extra, keep@, 0)));
        }
        let mut i: usize = 0;
        while i < cands.len()
            invariant
                i <= cands.len(),
                extra == cands@,
                keep@.len() == cands@.len(),
                forall|k: int| 0 <= k < extra.len() ==> (#[trigger] extra[k]).parent != NONE,
                old(self).carried(self, fresh),
                old(self).nodes.len() == 1 ==> self.room() + fresh.len() == old(self).room(),
                forall|k: int| 0 <= k < extra.len() ==> (#[trigger] extra[k]).parent < old(self).nodes.len(),
                self.resolving(
                    extra.subrange(i as int, extra.len() as int),
                    fresh,
                    picked(extra, keep@, i as int),
                ),
                fresh.len() == count_true(keep@.take(i as int)),
                self.room() + fresh.len() >= old(self).room(),
                self.turn == old(self).turn + 1,
                self.at == old(self).at + 1,
                self.ceiling == old(self).ceiling,
                self.init == old(self).init,
                self.env == old(self).env,
                self.pool == old(self).pool,
                self.nodes[0].progress == old(self).nodes[0].progress,
                forall|k: int|
                    0 <= k < cands@.len() && keep@[k] ==> !D::goal(
                        &self.env,
                        (#[trigger] cands@[k]).progress,
                    ),
            decreases cands.len() - i,
        {
            let c = cands[i];
            let ghost rest = extra.subrange(i as int, extra.len() as int);
            let ghost mid = *self;
            proof {
                assert(rest[0] == c);
                assert(rest.drop_first() =~= extra.subrange(i as int + 1, extra.len() as int));
                assert(keep@.take(i as int + 1).drop_last() =~= keep@.take(i as int));
            }
            if keep[i] {
                match self.keep_one(c, Ghost(rest), Ghost(fresh), Ghost(picked(extra, keep@,
                    i as int))) {
                    Err(e) => {
                        proof {
                            lemma_count_take(keep@, i as int + 1);
                            assert(self.linked(0));
                            if self.bare() {
                                self.lemma_bare_alone();
                                assert(self.backed(rest[0]));
                                lemma_cnt_member(rest, 0);
                                assert(self.live(rest[0].parent as int));
                                assert(self.nodes[0].refs == cnt_pool(self.pool@, 0u32) + cnt(
                                    rest,
                                    0u32,
                                ));
                                assert(false);
                            }
                            assert(self.resolving(
                                extra.subrange(i as int, extra.len() as int),
                                fresh,
                                picked(extra, keep@, i as int),
                            ));
                        }
                        return Err(e);
                    },
                    Ok(more) => {
                        proof {
                            assert forall|x: int| #[trigger] self.live(x) implies more@.contains(x)
                                || old(self).stays(self, x) by {
                                if x == more@.last() {
                                    assert(more@[more@.len() - 1] == x);
                                } else {
                                    assert(mid.stays(self, x));
                                    assert(mid.live(x));
                                    if fresh.contains(x) {
                                        let k = choose|k: int| 0 <= k < fresh.len() && fresh[k] == x;
                                        assert(more@[k] == x);
                                    }
                                }
                            }
                            fresh = more@;
                        }
                    },
                }
            } else {
                let gone = self.drop_one(
                    c,
                    Ghost(rest),
                    Ghost(fresh),
                    Ghost(picked(extra, keep@, i as int)),
                );
                proof {
                    old(self).lemma_carried(&mid, self, fresh);
                }
                if let Err(e) = gone {
                    proof {
                        assert(!keep@[i as int]);
                        assert(count_true(keep@.take(i as int + 1)) == count_true(keep@.take(i as int)));
                        assert(picked(extra, keep@, i as int + 1) == picked(extra, keep@, i as int));
                        self.lemma_collapsed(old(self), extra, keep@, i as int + 1, fresh);
                    }
                    return Err(e);
                }
            }
            i = i + 1;
        }
        proof {
            assert(extra.subrange(extra.len() as int, extra.len() as int) =~= Seq::<
                Cand<D::Op, D::Progress>,
            >::empty());
            assert(keep@.take(keep@.len() as int) =~= keep@);
            self.lemma_leaves_bounded(fresh);
            assert forall|y: int| #[trigger] self.spent(y) implies self.nodes[y].valid == self.at by {
                let k = choose|k: int| 0 <= k < fresh.len() && fresh[k] == y;
                assert(self.nodes[fresh[k]].valid == self.at);
            }
            let want = picked(extra, keep@, extra.len() as int);
            lemma_picked_from(extra, keep@, extra.len() as int);
            assert(self.linked(0));
            assert forall|k: int| 0 <= k < fresh.len() implies 1 <= #[trigger] fresh[k]
                < self.nodes.len() by {
                assert(self.leaf_now(fresh[k]));
                assert(extra.contains(want[k]));
                let j = choose|j: int| 0 <= j < extra.len() && extra[j] == want[k];
                assert(old(self).backed(extra[j]));
                assert(self.nodes[fresh[k]].parent == want[k].parent);
            }
            lemma_distinct_bounded(fresh, 1, self.nodes.len() as int);
            assert forall|i: int, f2: Seq<int>|
                0 <= i < extra.len() && keep@[i] implies !#[trigger] self.resolving(
                extra.subrange(i, extra.len() as int),
                f2,
                picked(extra, keep@, i),
            ) by {
                let rest = extra.subrange(i, extra.len() as int);
                if self.resolving(rest, f2, picked(extra, keep@, i)) {
                    let x = rest[0].parent;
                    assert(self.backed(rest[0]));
                    lemma_cnt_member(rest, 0);
                    assert(cnt(Seq::<Cand<D::Op, D::Progress>>::empty(), x) == 0);
                    assert(self.nodes[x as int].refs == cnt_pool(self.pool@, x) + cnt(rest, x));
                    assert(false);
                }
            }
        }
        if self.nodes[0].child == NONE && self.nodes[0].refs == 0 {
            proof {
                self.lemma_collapsed(old(self), extra, keep@, extra.len() as int, fresh);
            }
            return Err(SearchError::TreeCollapsed);
        }
        Ok(())
    }
}

/// The marks among the first `i` are no more than all the marks.
pub proof fn lemma_count_take(s: Seq<bool>, i: int)
    requires
        0 <= i <= s.len(),
    ensures
        count_true(s.take(i)) <= count_true(s),
    decreases s.len(),
{
    if i < s.len() {
        assert(s.drop_last().take(i) =~= s.take(i));
        lemma_count_take(s.drop_last(), i);
    } else {
        assert(s.take(i) =~= s);
    }
}

/// Where a mark is set, at least one is.
pub proof fn lemma_count_some(s: Seq<bool>, i: int)
    requires
        0 <= i < s.len(),
        s[i],
    ensures
        count_true(s) >= 1,
    decreases s.len(),
{
    if i < s.len() - 1 {
        lemma_count_some(s.drop_last(), i);
    }
}

/// Every candidate that is picked is one of the candidates.
pub proof fn lemma_picked_from<O, P>(cands: Seq<Cand<O, P>>, keep: Seq<bool>, n: int)
    requires
        0 <= n <= cands.len(),
    ensures
        forall|k: int|
            0 <= k < picked(cands, keep, n).len() ==> cands.contains(
                #[trigger] picked(cands, keep, n)[k],
            ),
    decreases n,
{
    if n > 0 {
        lemma_picked_from(cands, keep, n - 1);
        let q = picked(cands, keep, n - 1);
        assert forall|k: int| 0 <= k < picked(cands, keep, n).len() implies cands.contains(
            #[trigger] picked(cands, keep, n)[k],
        ) by {
            if k < q.len() {
                assert(picked(cands, keep, n)[k] == q[k]);
            } else {
                assert(picked(cands, keep, n)[k] == cands[n - 1]);
            }
        }
    }
}

/// Distinct numbers from `lo` up to but not `hi` are no more than `hi - lo`.
pub proof fn lemma_distinct_bounded(s: Seq<int>, lo: int, hi: int)
    requires
        lo <= hi,
        forall|k: int| 0 <= k < s.len() ==> lo <= #[trigger] s[k] < hi,
        forall|j: int, k: int| 0 <= j < k < s.len() ==> s[j] != s[k],
    ensures
        s.len() <= hi - lo,
{
    assert(s.no_duplicates());
    s.unique_seq_to_set();
    vstd::set_lib::lemma_int_range(lo, hi);
    assert(s.to_set().subset_of(vstd::set_lib::set_int_range(lo, hi))) by {
        assert forall|x: int| s.to_set().contains(x) implies vstd::set_lib::set_int_range(
            lo,
            hi,
        ).contains(x) by {
            let k = choose|k: int| 0 <= k < s.len() && s[k] == x;
            assert(lo <= s[k] < hi);
        }
    }
    vstd::set_lib::lemma_len_subset(s.to_set(), vstd::set_lib::set_int_range(lo, hi));
}

/// Every element of a rearranged sequence is an element of the sequence it
/// was rearranged from.
pub proof fn lemma_members<T>(s: Seq<T>, t: Seq<T>)
    requires
        s.to_multiset() == t.to_multiset(),
    ensures
        forall|k: int| 0 <= k < t.len() ==> s.contains(#[trigger] t[k]),
{
    s.to_multiset_ensures();
    t.to_multiset_ensures();
    assert forall|k: int| 0 <= k < t.len() implies s.contains(#[trigger] t[k]) by {
        assert(t.contains(t[k]));
        assert(t.to_multiset().count(t[k]) > 0);
        assert(s.to_multiset().count(t[k]) > 0);
    }
}

/// Place `g` of `due` holds the first candidate that reaches the goal.
pub open spec fn first_goal<D: Domain>(
    env: &D::Env,
    due: Seq<Cand<D::Op, D::Progress>>,
    g: int,
) -> bool {
    &&& 0 <= g < due.len()
    &&& D::goal(env, due[g].progress)
    &&& forall|k: int| 0 <= k < g ==> !D::goal(env, (#[trigger] due[k]).progress)
}

/// One of the candidates `due` reaches the goal.
pub open spec fn some_goal<D: Domain>(env: &D::Env, due: Seq<Cand<D::Op, D::Progress>>) -> bool {
    exists|k: int| 0 <= k < due.len() && D::goal(env, (#[trigger] due[k]).progress)
}

/// The place of the first of the first `n` of `moves` that is a single
/// atomic move and reaches the goal, or `n` if there is none.
pub open spec fn first_hit<D: Domain>(
    env: &D::Env,
    moves: Seq<Move<D::Op, D::Progress>>,
    n: nat,
) -> nat
    decreases n,
{
    if n == 0 {
        0
    } else {
        let k = first_hit::<D>(env, moves, (n - 1) as nat);
        if k < n - 1 {
            k
        } else if moves[n - 1].turns == 1 && D::goal(env, moves[n - 1].progress) {
            (n - 1) as nat
        } else {
            n
        }
    }
}

/// Where no candidate at the goal was due at the next turn before the first
/// `n` of `moves` were filed, the first candidate at the goal that is due
/// then is the one of the first move that is a single atomic move and
/// reaches the goal; and there is such a candidate if and only if there is
/// such a move.
pub proof fn lemma_first_hit<D: Domain>(
    env: &D::Env,
    pool: Seq<Seq<Cand<D::Op, D::Progress>>>,
    moves: Seq<Move<D::Op, D::Progress>>,
    parent: u32,
    seed: u64,
    jitter: u64,
    turn: int,
    n: nat,
)
    requires
        n <= moves.len(),
        0 <= turn,
        turn + 1 < pool.len(),
        forall|k: int| 0 <= k < n ==> turn + (#[trigger] moves[k]).turns < pool.len(),
        !some_goal::<D>(env, pool[turn + 1]),
    ensures
        ({
            let f = filed(pool, moves, parent, seed, jitter, turn, n)[turn + 1];
            let k = first_hit::<D>(env, moves, n);
            &&& k <= n
            &&& (k < n) == some_goal::<D>(env, f)
            &&& forall|g: int| #[trigger]
                first_goal::<D>(env, f, g) ==> f[g].parent == parent && f[g].as_move() == moves[k as int]
        }),
    decreases n,
{
    let f = filed(pool, moves, parent, seed, jitter, turn, n)[turn + 1];
    if n == 0 {
        assert forall|g: int| #[trigger] first_goal::<D>(env, f, g) implies false by {
            assert(D::goal(env, f[g].progress));
        }
    } else {
        lemma_first_hit::<D>(env, pool, moves, parent, seed, jitter, turn, (n - 1) as nat);
        crate::walker::lemma_filed(pool, moves, parent, seed, jitter, turn, (n - 1) as nat);
        let p = filed(pool, moves, parent, seed, jitter, turn, (n - 1) as nat);
        let e = p[turn + 1];
        let m = moves[n - 1];
        let b = turn + m.turns;
        let c = cand_of(m, parent, seed_after(seed, n), jitter);
        let k0 = first_hit::<D>(env, moves, (n - 1) as nat);
        assert(filed(pool, moves, parent, seed, jitter, turn, n) == p.update(b, p[b].push(c)));
        if m.turns != 1 {
            assert(f == e);
        } else {
            assert(f == e.push(c));
            assert(c.as_move() == m);
            if some_goal::<D>(env, e) {
                let w = choose|w: int| 0 <= w < e.len() && D::goal(env, (#[trigger] e[w]).progress);
                assert(f[w] == e[w]);
                assert forall|g: int| #[trigger] first_goal::<D>(env, f, g) implies f[g].parent
                    == parent && f[g].as_move() == moves[k0 as int] by {
                    if g >= e.len() {
                        assert(f[w] == e[w]);
                        assert(false);
                    }
                    assert forall|q: int| 0 <= q < g implies !D::goal(
                        env,
                        (#[trigger] e[q]).progress,
                    ) by {
                        assert(f[q] == e[q]);
                    }
                    assert(f[g] == e[g]);
                    assert(first_goal::<D>(env, e, g));
                }
            } else {
                assert forall|q: int| 0 <= q < e.len() implies !D::goal(
                    env,
                    (#[trigger] f[q]).progress,
                ) by {
                    assert(f[q] == e[q]);
                }
                if D::goal(env, m.progress) {
                    assert(f[e.len() as int] == c);
                    assert(some_goal::<D>(env, f));
                    assert forall|g: int| #[trigger] first_goal::<D>(env, f, g) implies f[g].parent
                        == parent && f[g].as_move() == moves[n - 1] by {
                        if g < e.len() {
                            assert(f[g] == e[g]);
                        }
                    }
                } else {
                    assert forall|q: int| 0 <= q < f.len() implies !D::goal(
                        env,
                        (#[trigger] f[q]).progress,
                    ) by {
                        if q < e.len() {
                            assert(f[q] == e[q]);
                        }
                    }
                    assert forall|g: int| #[trigger] first_goal::<D>(env, f, g) implies false by {
                        assert(D::goal(env, f[g].progress));
                    }
                }
            }
        }
    }
}

/// From the contents `origin` the goal is one move away for a search with
/// `buckets` buckets: the start is not at the goal, the clock is not looked
/// at in the first round, every move from the start is due at a turn that
/// has a bucket, and one of them is a single atomic move that reaches the
/// goal.
pub open spec fn goal_in_one<D: Domain>(
    env: &D::Env,
    origin: D::V,
    buckets: int,
    cfg: &Config,
) -> bool {
    let p = D::start(env, origin);
    let ms = D::moves(env, origin, p);
    &&& !D::goal(env, p)
    &&& buckets >= 2
    &&& cfg.poll_every >= 2
    &&& ms.len() < usize::MAX
    &&& forall|k: int| 0 <= k < ms.len() ==> (#[trigger] ms[k]).turns < buckets
    &&& exists|k: int| 0 <= k < ms.len() && (#[trigger] ms[k]).turns == 1 && D::goal(env, ms[k].progress)
}

impl<D: Domain> BeamSearch<D> {
    /// An engine that was just made or reset, for a start from which the
    /// goal is one move away, is one move away from the goal.
    pub proof fn lemma_goal_in_one(&self, cfg: &Config)
        requires
            self.wf(),
            cfg.ok(),
            self.slots().len() == 1,
            self.slots()[0].valid == self.generation(),
            self.slots()[0].refs == 0,
            self.slots()[0].progress == D::start(self.tables(), self.origin()),
            self.round() == 0,
            goal_in_one::<D>(self.tables(), self.origin(), self.buckets().len() as int, cfg),
        ensures
            self.one_move_away(cfg),
            self.moves_at(0) == D::moves(
                self.tables(),
                self.origin(),
                D::start(self.tables(), self.origin()),
            ),
    {
        assert(self.linked(0));
        assert(self.paths@[0] =~= Seq::<D::Op>::empty());
        assert(replay::<D>(&self.env, self.init@, self.paths@[0]) == self.init@);
        let ms = self.moves_at(0);
        assert(ms == D::moves(&self.env, self.init@, D::start(&self.env, self.init@)));
        crate::walker::lemma_lead_full(ms, self.pool@.len() - self.turn, 0, ms.len());
        assert(1int % (cfg.poll_every as int) != 0) by (nonlinear_arith)
            requires
                cfg.poll_every >= 2,
        ;
    }

    /// The engine is as a walk leaves it: all is in order, the state stands
    /// at the root, and the leaves without continuations are listed.
    pub open(crate) spec fn walked(&self) -> bool {
        &&& self.base()
        &&& self.que_ok()
        &&& self.harvested()
    }

    /// The root has no child, and no candidate waits for it.
    pub open(crate) spec fn bare(&self) -> bool {
        self.nodes[0].child == NONE && self.nodes[0].refs == 0
    }

    /// The candidates that are due at the next turn.
    pub open(crate) spec fn due_next(&self) -> Seq<Cand<D::Op, D::Progress>> {
        self.pool@[self.turn + 1]@
    }

    /// The arena is full: the free pool is empty, and the arena has reached
    /// its ceiling.
    pub open(crate) spec fn full(&self) -> bool {
        self.free@.len() == 0 && self.nodes.len() >= self.ceiling
    }

    /// `new` is this engine after the selector ranked the candidates that
    /// are due at the next turn for a beam of width `width`, and the
    /// lifecycle step came to the end `r` with what the selector marked.
    pub open(crate) spec fn ranked_round(
        &self,
        new: &Self,
        r: Result<(), SearchError>,
        width: int,
    ) -> bool {
        exists|ranked: Seq<Cand<D::Op, D::Progress>>, keep: Seq<bool>| #[trigger]
            selected(self.due_next(), ranked, keep, width) && new.settles(self, r, ranked, keep) && (r matches Err(
                SearchError::ResourceExhausted,
            ) ==> count_true(keep) > self.room()) && (count_true(keep) >= self.limit() ==> r matches Err(
                SearchError::ResourceExhausted,
            )) && (r matches Err(SearchError::TreeCollapsed) ==> count_true(keep) == 0) && (self.nodes.len()
            == 1 ==> (r matches Err(SearchError::ResourceExhausted) <==> count_true(keep) > self.room()))
    }

    /// The answer that the candidate `c` gives: the path to its parent and
    /// its own operation, with what it projects.
    pub open(crate) spec fn answers(
        &self,
        c: Cand<D::Op, D::Progress>,
        a: Answer<D::Op, D::Progress>,
    ) -> bool {
        &&& a.path@ == self.path(c.parent as int).push(c.op)
        &&& a.score == c.score
        &&& a.hash == c.hash
        &&& a.progress == c.progress
    }

    /// What the search does after a walk, given whether the deadline has
    /// passed. In this order: if no turn is left, the search is exhausted;
    /// if the deadline has passed, it ends so; if a candidate that is due at
    /// the next turn reaches the goal, the first such gives the answer;
    /// otherwise the selector ranks the candidates that are due, and the
    /// tree is grown and pruned with what it marked, as `update` does it:
    /// `ranked_round` says what the selector made of the candidates and to
    /// which end the step came. The step fails for want of a slot where a
    /// candidate is due and the arena has room for the root alone, and not
    /// where the arena has room for as many nodes as the beam is wide; it
    /// fails if and only if it leaves the arena full before a candidate
    /// that is to be kept, or the root bare. `None` says that the search
    /// goes on with the next walk.
    #[verifier::rlimit(60)]
    pub fn finish_round(&mut self, cfg: &Config, expired: bool) -> (r: Result<
        Option<Outcome<D::Op, D::Progress>>,
        SearchError,
    >)
        requires
            old(self).walked(),
            old(self).sized(),
            !D::goal(old(self).tables(), old(self).slots()[0].progress),
        ensures
            final(self).sized(),
            final(self).tables() == old(self).tables(),
            final(self).origin() == old(self).origin(),
            final(self).limit() == old(self).limit(),
            final(self).buckets().len() == old(self).buckets().len(),
            final(self).slots()[0].progress == old(self).slots()[0].progress,
            old(self).round() + 1 >= old(self).buckets().len() ==> (r matches Ok(
                Some(Outcome::Exhausted),
            )) && *final(self) == *old(self),
            old(self).round() + 1 < old(self).buckets().len() && expired ==> (r matches Ok(
                Some(Outcome::DeadlineExceeded),
            )) && *final(self) == *old(self),
            old(self).round() + 1 < old(self).buckets().len() && !expired ==> {
                let due = old(self).due_next();
                &&& final(self).buckets()[old(self).round() as int + 1]@.len() == 0
                &&& some_goal::<D>(old(self).tables(), due) ==> {
                    &&& final(self).round() == old(self).round()
                    &&& r matches Ok(Some(Outcome::Found(a))) && answer_ok::<D>(
                        old(self).tables(),
                        old(self).origin(),
                        a,
                    ) && exists|g: int| #[trigger]
                        first_goal::<D>(old(self).tables(), due, g) && old(self).answers(due[g], a)
                }
                &&& !some_goal::<D>(old(self).tables(), due) ==> {
                    &&& final(self).round() == old(self).round() + 1
                    &&& final(self).generation() == old(self).generation() + 1
                    &&& final(self).tree_ok()
                    &&& final(self).sem_ok()
                    &&& final(self).buckets() == old(self).buckets().update(
                        old(self).round() as int + 1,
                        final(self).buckets()[old(self).round() as int + 1],
                    )
                    &&& r matches Ok(x) ==> x is None
                    &&& old(self).ranked_round(
                        final(self),
                        match r {
                            Ok(_) => Ok(()),
                            Err(e) => Err(e),
                        },
                        cfg.width as int,
                    )
                    &&& r is Ok ==> final(self).wf() && !final(self).bare()
                        && final(self).now_leaves().finite() && final(self).now_leaves().len()
                        <= cfg.width
                    &&& r matches Err(SearchError::ResourceExhausted) ==> final(self).full()
                        && cfg.width > old(self).room()
                    &&& (r matches Err(SearchError::TreeCollapsed)) <==> final(self).bare()
                    &&& due.len() > 0 && cfg.width > 0 && old(self).limit() == 1 ==> r matches Err(
                        SearchError::ResourceExhausted,
                    )
                }
            },
    {
        if self.turn + 1 >= self.pool.len() {
            return Ok(Some(Outcome::Exhausted));
        }
        if expired {
            return Ok(Some(Outcome::DeadlineExceeded));
        }
        let mut bucket = self.take_due();
        let ghost due = bucket@;
        let mut g: usize = 0;
        while g < bucket.len() && !D::is_goal(&self.env, &bucket[g].progress)
            invariant
                g <= bucket.len(),
                forall|k: int| 0 <= k < g ==> !D::goal(&self.env, (#[trigger] bucket@[k]).progress),
            decreases bucket.len() - g,
        {
            g = g + 1;
        }
        if g < bucket.len() {
            let c = bucket[g];
            proof {
                assert(self.backed(bucket@[g as int]));
                assert(self.linked(0));
                assert(self.sound(c.parent as int));
            }
            let mut path = self.restore(c.parent);
            let ghost stem = path@;
            path.push(c.op);
            proof {
                assert(path@.drop_last() =~= stem);
            }
            let a = Answer { path, score: c.score, hash: c.hash, progress: c.progress };
            proof {
                assert(first_goal::<D>(&self.env, due, g as int));
                assert(old(self).answers(due[g as int], a));
            }
            return Ok(Some(Outcome::Found(a)));
        }
        let keep = select(&mut bucket, cfg.width);
        proof {
            if due.len() > 0 && cfg.width > 0 {
                assert(keep@.take(0) =~= Seq::<bool>::empty());
                assert(kept(bucket@, keep@, cfg.width as int, 0));
                lemma_count_some(keep@, 0);
            }
            self.lemma_pool_permuted(due, bucket@);
            lemma_members(due, bucket@);
            assert forall|i: int| 0 <= i < bucket@.len() && keep@[i] implies !D::goal(
                &self.env,
                (#[trigger] bucket@[i]).progress,
            ) by {
                assert(due.contains(bucket@[i]));
                let k = choose|k: int| 0 <= k < due.len() && due[k] == bucket@[i];
                assert(!D::goal(&self.env, due[k].progress));
            }
        }
        let ghost ranked = bucket@;
        let ghost taken = *self;
        let done = self.update(bucket, &keep);
        proof {
            assert(selected(old(self).due_next(), ranked, keep@, cfg.width as int));
            assert(self.settles(&taken, done, ranked, keep@));
            taken.lemma_settles_from(old(self), self, done, ranked, keep@);
            assert(taken.room() == old(self).room());
            assert(old(self).ranked_round(self, done, cfg.width as int));
            assert(self.pool@ =~= old(self).pool@.update(
                old(self).turn as int + 1,
                self.pool@[old(self).turn as int + 1],
            ));
        }
        match done {
            Err(e) => Err(e),
            Ok(_) => Ok(None),
        }
    }

    /// Runs the search from where the engine stands. If the root is at the
    /// goal, the answer is the empty path. Otherwise, round after round: the
    /// leaves of the current generation are walked and asked for
    /// candidates, and `finish_round` does the rest. The clock is looked at after
    /// a walk whose turn is polled, and at no other time: an answer that is
    /// due before the first such turn is found whatever the clock says, and
    /// it is the one of the first move from the root that reaches the goal.
    /// The
    /// search gives up when the deadline has passed at a polled turn, and
    /// when no turn is left. It fails when the
    /// arena is full, as it is in the first round where it has no room for
    /// what that round keeps; when a move is due at a turn without a bucket; and when
    /// a round leaves the root without children and without waiting
    /// candidates.
    #[verifier::rlimit(60)]
    pub fn solve(&mut self, cfg: &Config, clock: &Clock) -> (r: Result<
        Outcome<D::Op, D::Progress>,
        SearchError,
    >)
        requires
            old(self).wf(),
            old(self).sized(),
            cfg.ok(),
        ensures
            final(self).sized(),
            final(self).tables() == old(self).tables(),
            final(self).limit() == old(self).limit(),
            final(self).buckets().len() == old(self).buckets().len(),
            r matches Ok(Outcome::Found(a)) ==> answer_ok::<D>(
                old(self).tables(),
                old(self).origin(),
                a,
            ),
            D::goal(old(self).tables(), old(self).slots()[0].progress) ==> (r matches Ok(
                Outcome::Found(a),
            ) && a.path@.len() == 0 && a.score == old(self).slots()[0].score
                && a.hash == old(self).slots()[0].hash
                && a.progress == old(self).slots()[0].progress) && *final(self) == *old(self),
            r matches Ok(Outcome::DeadlineExceeded) ==> (final(self).round() + 1) % (
            cfg.poll_every as nat) == 0 && final(self).round() + 1 < final(self).buckets().len(),
            r matches Ok(Outcome::Exhausted) ==> final(self).round() + 1 >= final(self).buckets().len(),
            r matches Err(SearchError::ResourceExhausted) ==> final(self).full() || final(self).stuck(),
            r matches Err(SearchError::TreeCollapsed) ==> final(self).bare() && final(self).wf(),
            r is Err ==> final(self).tree_ok() && final(self).sem_ok(),
            r matches Ok(Outcome::DeadlineExceeded) ==> final(self).walked(),
            r matches Ok(Outcome::Exhausted) ==> final(self).walked(),
            old(self).one_move_away(cfg) ==> (r matches Ok(Outcome::Found(a)) && a.path@.len()
                == 1),
            old(self).one_move_away(cfg) && !some_goal::<D>(old(self).tables(), old(self).due_next())
                ==> (r matches Ok(Outcome::Found(a)) && a.path@ == seq![old(self).hit().op]
                && a.score == old(self).hit().score && a.hash == old(self).hit().hash
                && a.progress == old(self).hit().progress),
            old(self).too_small(cfg) ==> r matches Err(SearchError::ResourceExhausted),
            old(self).cramped(cfg) ==> r matches Err(SearchError::ResourceExhausted),
    {
        proof {
            assert(self.linked(0));
            assert(self.sound(0));
        }
        if D::is_goal(&self.env, &self.nodes[0].progress) {
            let a = Answer {
                path: Vec::new(),
                score: self.nodes[0].score,
                hash: self.nodes[0].hash,
                progress: self.nodes[0].progress,
            };
            return Ok(Outcome::Found(a));
        }
        let ghost mut first = true;
        loop
            invariant
                self.wf(),
                self.sized(),
                cfg.ok(),
                self.env == old(self).env,
                self.init == old(self).init,
                self.ceiling == old(self).ceiling,
                self.pool.len() == old(self).pool.len(),
                !D::goal(&self.env, self.nodes[0].progress),
                !D::goal(&old(self).env, old(self).nodes[0].progress),
                first ==> *self == *old(self),
                !first ==> !old(self).one_move_away(cfg) && !old(self).too_small(cfg) && !old(self).cramped(cfg),
            decreases self.pool.len() - self.turn,
        {
            let rr = jitter(cfg, self.turn);
            let ghost before = *self;
            match self.enum_cands(rr) {
                Err(e) => {
                    return Err(e);
                },
                Ok(_) => {},
            }
            proof {
                assert(self.linked(0));
                if before.one_move_away(cfg) {
                    before.lemma_one_move_away(self, cfg);
                }
                if before.too_small(cfg) {
                    before.lemma_too_small(self, cfg);
                }
                if before.cramped(cfg) {
                    self.lemma_no_goal_due();
                    assert(self.shelves()[self.turn + 1] == self.due_next());
                    assert(self.due_next() == before.first_due(cfg));
                    assert(self.room() == before.room());
                }
            }
            let expired = self.turn + 1 < self.pool.len() && (self.turn + 1) % cfg.poll_every == 0
                && clock.expired();
            let ghost walked = *self;
            match self.finish_round(cfg, expired) {
                Err(e) => {
                    return Err(e);
                },
                Ok(Some(o)) => {
                    proof {
                        if before.one_move_away(cfg) {
                            let a = o->Found_0;
                            let g = choose|g: int| #[trigger]
                                first_goal::<D>(&walked.env, walked.due_next(), g) && walked.answers(
                                    walked.due_next()[g],
                                    a,
                                );
                            assert(walked.backed(walked.due_next()[g]));
                            assert(walked.linked(0));
                            if !some_goal::<D>(&before.env, before.due_next()) {
                                let ms = before.moves_at(0);
                                crate::walker::lemma_lead_all(
                                    ms,
                                    before.pool@.len() - before.turn,
                                    before.nodes[0].refs as int,
                                    ms.len(),
                                );
                                assert(before.shelves()[before.turn + 1] == before.due_next());
                                lemma_first_hit::<D>(
                                    &before.env,
                                    before.shelves(),
                                    ms,
                                    0u32,
                                    before.seed_of(),
                                    rr,
                                    before.turn as int,
                                    ms.len(),
                                );
                                assert(walked.shelves()[walked.turn + 1] == walked.due_next());
                                assert(walked.paths@[0] =~= Seq::<D::Op>::empty());
                                assert(a.path@ =~= seq![before.hit().op]);
                            }
                        }
                    }
                    return Ok(o);
                },
                Ok(None) => {},
            }
            proof {
                first = false;
            }
        }
    }

    /// The search starts at a root that stands alone, marked for its first
    /// walk and not at the goal; all the moves from it fit; and the next
    /// turn has a bucket and is not one at which the clock is looked at.
    pub open(crate) spec fn starts(&self, cfg: &Config) -> bool {
        &&& self.nodes.len() == 1
        &&& self.nodes[0].valid == self.at
        &&& !D::goal(&self.env, self.nodes[0].progress)
        &&& self.can_file(0)
        &&& self.turn + 1 < self.pool@.len()
        &&& (self.turn + 1) % (cfg.poll_every as int) != 0
    }

    /// The first of the moves from the root that is a single atomic move
    /// and reaches the goal.
    pub open(crate) spec fn hit(&self) -> Move<D::Op, D::Progress> {
        self.moves_at(0)[first_hit::<D>(&self.env, self.moves_at(0), self.moves_at(0).len()) as int]
    }

    /// The search starts, and one of the moves from the root is a single
    /// atomic move that reaches the goal.
    pub open(crate) spec fn one_move_away(&self, cfg: &Config) -> bool {
        &&& self.starts(cfg)
        &&& exists|k: int|
            0 <= k < self.moves_at(0).len() && (#[trigger] self.moves_at(0)[k]).turns == 1
                && D::goal(&self.env, self.moves_at(0)[k].progress)
    }

    /// The search starts with an arena that has room for the root alone and
    /// a beam that keeps a candidate, one of the moves from the root is a
    /// single atomic move, and no operation that is legal at the start
    /// reaches the goal.
    pub open(crate) spec fn too_small(&self, cfg: &Config) -> bool {
        &&& self.starts(cfg)
        &&& self.ceiling == 1
        &&& cfg.width > 0
        &&& exists|k: int|
            0 <= k < self.moves_at(0).len() && (#[trigger] self.moves_at(0)[k]).turns == 1
        &&& forall|op: D::Op, p: D::Progress|
            D::legal(&self.env, self.init@, op) && #[trigger] D::tracks(
                &self.env,
                D::step(&self.env, self.init@, op),
                p,
            ) ==> !D::goal(&self.env, p)
    }

    /// The candidates that are due at the next turn after the first walk
    /// from a root that stands alone.
    pub open(crate) spec fn first_due(&self, cfg: &Config) -> Seq<Cand<D::Op, D::Progress>> {
        filed(
            self.shelves(),
            self.moves_at(0),
            0u32,
            self.seed_of(),
            jitter_spec(
                cfg.jitter_from as int,
                cfg.jitter_to as int,
                cfg.jitter_span as int,
                self.turn as int,
            ) as u64,
            self.turn as int,
            self.moves_at(0).len(),
        )[self.turn + 1]
    }

    /// The search starts in an arena that cannot take what the first round
    /// keeps: no operation that is legal at the start reaches the goal, and
    /// whatever the selector makes of the candidates that are due after the
    /// first walk, it marks more than the arena has room for.
    pub open(crate) spec fn cramped(&self, cfg: &Config) -> bool {
        &&& self.starts(cfg)
        &&& forall|op: D::Op, p: D::Progress|
            D::legal(&self.env, self.init@, op) && #[trigger] D::tracks(
                &self.env,
                D::step(&self.env, self.init@, op),
                p,
            ) ==> !D::goal(&self.env, p)
        &&& forall|ranked: Seq<Cand<D::Op, D::Progress>>, keep: Seq<bool>| #[trigger]
            selected(self.first_due(cfg), ranked, keep, cfg.width as int) ==> count_true(keep)
                > self.room()
    }

    /// Where no operation that is legal at the start reaches the goal, no
    /// candidate of a root that stands alone does.
    pub(crate) proof fn lemma_no_goal_due(&self)
        requires
            self.walked(),
            self.nodes.len() == 1,
            self.turn + 1 < self.pool@.len(),
            forall|op: D::Op, p: D::Progress|
                D::legal(&self.env, self.init@, op) && #[trigger] D::tracks(
                    &self.env,
                    D::step(&self.env, self.init@, op),
                    p,
                ) ==> !D::goal(&self.env, p),
        ensures
            !some_goal::<D>(&self.env, self.due_next()),
    {
        assert(self.linked(0));
        assert forall|j: int| 0 <= j < self.due_next().len() implies !D::goal(
            &self.env,
            (#[trigger] self.due_next()[j]).progress,
        ) by {
            let c = self.pool@[self.turn + 1]@[j];
            assert(self.backed(c));
            assert(c.parent == 0);
            assert(self.paths@[0] =~= Seq::<D::Op>::empty());
            assert(replay::<D>(&self.env, self.init@, self.paths@[0]) == self.init@);
        }
    }

    /// After the walk from a root from which no operation reaches the goal,
    /// a candidate is due at the next turn, and none that is due reaches
    /// the goal.
    pub(crate) proof fn lemma_too_small(&self, new: &Self, cfg: &Config)
        requires
            self.wf(),
            self.too_small(cfg),
            self.fed(new),
            new.walked(),
            self.due_leaf(0) ==> forall|k: int|
                0 <= k < self.moves_at(0).len() ==> new.waits(0, #[trigger] self.moves_at(0)[k]),
        ensures
            new.due_next().len() > 0,
            !some_goal::<D>(&new.env, new.due_next()),
    {
        assert(self.linked(0));
        assert(self.due_leaf(0));
        let k = choose|k: int|
            0 <= k < self.moves_at(0).len() && (#[trigger] self.moves_at(0)[k]).turns == 1;
        let m = self.moves_at(0)[k];
        assert(new.waits(0, m));
        let b = new.shelves()[new.turn + 1];
        assert(b == new.due_next());
        assert forall|j: int| 0 <= j < new.due_next().len() implies !D::goal(
            &new.env,
            (#[trigger] new.due_next()[j]).progress,
        ) by {
            let c = new.pool@[new.turn + 1]@[j];
            assert(new.backed(c));
            assert(c.parent == 0);
            assert(new.paths@[0] =~= Seq::<D::Op>::empty());
            assert(replay::<D>(&new.env, new.init@, new.paths@[0]) == new.init@);
        }
    }

    /// After the walk from a root one move away from the goal, a candidate
    /// that reaches the goal is due at the next turn.
    pub(crate) proof fn lemma_one_move_away(&self, new: &Self, cfg: &Config)
        requires
            self.wf(),
            self.one_move_away(cfg),
            self.fed(new),
            self.due_leaf(0) ==> forall|k: int|
                0 <= k < self.moves_at(0).len() ==> new.waits(0, #[trigger] self.moves_at(0)[k]),
        ensures
            some_goal::<D>(&new.env, new.due_next()),
    {
        assert(self.linked(0));
        assert(self.due_leaf(0));
        let k = choose|k: int|
            0 <= k < self.moves_at(0).len() && (#[trigger] self.moves_at(0)[k]).turns == 1
                && D::goal(&self.env, self.moves_at(0)[k].progress);
        let m = self.moves_at(0)[k];
        assert(new.waits(0, m));
        let b = new.shelves()[new.turn + 1];
        let j = choose|j: int|
            0 <= j < b.len() && (#[trigger] b[j]).parent == 0u32 && b[j].as_move() == m;
        assert(new.due_next()[j] == b[j]);
        assert(D::goal(&new.env, new.due_next()[j].progress));
    }
}

} // verus!
