//! The walk over the tree: one state is driven from leaf to leaf by applying
//! and reverting operations, and every leaf of the current generation is
//! asked for its continuations.

use crate::beam::{cnt, cnt_pool, BeamSearch, Cand, Node, SearchError, NONE};
use crate::domain::{offered, replay, Domain, Move};
use vstd::prelude::*;

verus! {

/// Largest jitter magnitude the engine accepts.
pub const JITTER_LIMIT: u64 = 0x2000_0000_0000_0000;

/// `b` to the power `k`.
pub open spec fn pw(b: nat, k: nat) -> nat
    decreases k,
{
    if k == 0 {
        1
    } else {
        b * pw(b, (k - 1) as nat)
    }
}

/// The place of a walker in the order of the walk, as a number that gets
/// smaller with every step forward: `t` holds, for each level below the root,
/// the rank of the node the walker went through; a level it has not reached
/// counts as the largest digit `b - 1`. The number has `w` digits to base `b`.
pub open spec fn code(t: Seq<nat>, w: nat, b: nat) -> int
    decreases t.len(),
{
    if t.len() == 0 {
        pw(b, w) - 1
    } else {
        code(t.drop_last(), w, b) - (b - 1 - t.last()) * pw(b, (w - t.len()) as nat)
    }
}

pub proof fn lemma_pw_pos(b: nat, k: nat)
    requires
        b >= 1,
    ensures
        pw(b, k) >= 1,
    decreases k,
{
    if k > 0 {
        lemma_pw_pos(b, (k - 1) as nat);
        let p = pw(b, (k - 1) as nat);
        assert(b * p >= 1) by (nonlinear_arith)
            requires
                b >= 1,
                p >= 1,
        ;
    }
}

/// A place whose digits are all below `b - 1` is worth at least what its
/// unreached levels are worth.
pub proof fn lemma_code_floor(t: Seq<nat>, w: nat, b: nat)
    requires
        b >= 2,
        t.len() <= w,
        forall|k: int| 0 <= k < t.len() ==> #[trigger] t[k] + 2 <= b,
    ensures
        code(t, w, b) >= pw(b, (w - t.len()) as nat) - 1,
        code(t, w, b) >= 0,
    decreases t.len(),
{
    lemma_pw_pos(b, (w - t.len()) as nat);
    if t.len() > 0 {
        let u = t.drop_last();
        lemma_code_floor(u, w, b);
        let p = pw(b, (w - t.len()) as nat);
        let r = t.last();
        assert(pw(b, (w - u.len()) as nat) == b * p);
        assert(b * p - (b - 1 - r) * p >= p) by (nonlinear_arith)
            requires
                b >= 2,
                r + 2 <= b,
                p >= 1,
        ;
    }
}

/// Going one level down makes the place smaller.
pub proof fn lemma_code_down(t: Seq<nat>, r: nat, w: nat, b: nat)
    requires
        b >= 2,
        t.len() < w,
        r + 2 <= b,
    ensures
        code(t.push(r), w, b) < code(t, w, b),
{
    let u = t.push(r);
    assert(u.drop_last() =~= t);
    let p = pw(b, (w - u.len()) as nat);
    lemma_pw_pos(b, (w - u.len()) as nat);
    assert((b - 1 - r) * p >= 1) by (nonlinear_arith)
        requires
            r + 2 <= b,
            p >= 1,
    ;
}

/// Going one level up raises the place by less than the level is worth.
pub proof fn lemma_code_up(t: Seq<nat>, w: nat, b: nat, base: int, p0: int)
    requires
        b >= 2,
        0 < t.len() <= w,
        t.last() + 2 <= b,
        code(t, w, b) + p0 <= base + pw(b, (w - t.len()) as nat),
    ensures
        code(t.drop_last(), w, b) + p0 <= base + pw(b, (w - t.len() + 1) as nat),
{
    let p = pw(b, (w - t.len()) as nat);
    let r = t.last();
    assert(pw(b, (w - t.len() + 1) as nat) == b * p);
    assert(p + (b - 1 - r) * p <= b * p) by (nonlinear_arith)
        requires
            r + 2 <= b,
            p >= 0,
    ;
}

/// Moving on to a later sibling, after any number of levels up, makes the
/// place smaller than it was before going up.
pub proof fn lemma_code_side(t: Seq<nat>, r: nat, w: nat, b: nat, base: int, p0: int)
    requires
        b >= 2,
        0 < t.len() <= w,
        t.last() + 2 <= b,
        r < t.last(),
        p0 >= 1,
        code(t, w, b) + p0 <= base + pw(b, (w - t.len()) as nat),
    ensures
        code(t.drop_last().push(r), w, b) < base,
{
    let u = t.drop_last().push(r);
    assert(u.drop_last() =~= t.drop_last());
    let p = pw(b, (w - t.len()) as nat);
    let q = t.last();
    assert(code(u, w, b) == code(t.drop_last(), w, b) - (b - 1 - r) * p);
    assert(code(t, w, b) == code(t.drop_last(), w, b) - (b - 1 - q) * p);
    assert((b - 1 - q) * p - (b - 1 - r) * p <= -p) by (nonlinear_arith)
        requires
            r < q,
            p >= 0,
    ;
}

/// The buckets agree but for bucket `b`: so do the counts, but for what
/// bucket `b` holds.
pub proof fn lemma_cnt_pool_swap<O, P>(
    pool: Seq<Vec<Cand<O, P>>>,
    pool2: Seq<Vec<Cand<O, P>>>,
    b: int,
    x: u32,
)
    requires
        0 <= b < pool.len(),
        pool2.len() == pool.len(),
        forall|k: int| 0 <= k < pool.len() && k != b ==> #[trigger] pool2[k] == pool[k],
    ensures
        cnt_pool(pool2, x) + cnt(pool[b]@, x) == cnt_pool(pool, x) + cnt(pool2[b]@, x),
    decreases pool.len(),
{
    if b == pool.len() - 1 {
        assert(pool2.drop_last() =~= pool.drop_last());
    } else {
        lemma_cnt_pool_swap(pool.drop_last(), pool2.drop_last(), b, x);
    }
}

/// One more candidate counts for its parent and for no other node.
pub proof fn lemma_cnt_push<O, P>(s: Seq<Cand<O, P>>, c: Cand<O, P>, x: u32)
    ensures
        cnt(s.push(c), x) == cnt(s, x) + (if c.parent == x {
            1nat
        } else {
            0nat
        }),
{
    assert(s.push(c).drop_last() =~= s);
}

/// The state of the pseudo-random numbers after `k` draws from `seed`.
pub open spec fn seed_after(seed: u64, k: nat) -> u64
    decreases k,
{
    if k == 0 {
        seed
    } else {
        crate::rnd::next_spec(seed_after(seed, (k - 1) as nat))
    }
}

/// The candidate that the move `m` from node `parent` becomes when the draw
/// for its jitter is `draw`: its ranking key is its score plus the draw
/// modulo `jitter`.
pub open spec fn cand_of<O, P>(m: Move<O, P>, parent: u32, draw: u64, jitter: u64) -> Cand<O, P> {
    Cand {
        op: m.op,
        parent,
        eval_score: (m.score + draw % jitter) as i64,
        hash: m.hash,
        progress: m.progress,
        score: m.score,
        key: m.key,
        turns: m.turns,
    }
}

/// The buckets `pool` after the first `n` of `moves` from node `parent` were
/// filed at turn `turn`: each is appended to the bucket of the turn at which
/// it is due, with the jitter of the next draw from `seed`.
pub open spec fn filed<O, P>(
    pool: Seq<Seq<Cand<O, P>>>,
    moves: Seq<Move<O, P>>,
    parent: u32,
    seed: u64,
    jitter: u64,
    turn: int,
    n: nat,
) -> Seq<Seq<Cand<O, P>>>
    decreases n,
{
    if n == 0 {
        pool
    } else {
        let p = filed(pool, moves, parent, seed, jitter, turn, (n - 1) as nat);
        let m = moves[n - 1];
        let b = turn + m.turns;
        p.update(b, p[b].push(cand_of(m, parent, seed_after(seed, n), jitter)))
    }
}

/// How many of the first `n` of `moves` fit before one does not:
/// move number `k` fits if it is due within the `room` turns that have
/// buckets, and if a node that counts `refs` candidates can count `k + 1`
/// more.
pub open spec fn lead<O, P>(moves: Seq<Move<O, P>>, room: int, refs: int, n: nat) -> nat
    decreases n,
{
    if n == 0 {
        0
    } else {
        let c = lead(moves, room, refs, (n - 1) as nat);
        if c == n - 1 && moves[n - 1].turns < room && refs + (n - 1) < usize::MAX {
            n
        } else {
            c
        }
    }
}

/// The place of the first of `moves` that does not fit, or their number if
/// all fit.
pub fn fits<O: Copy, P: Copy>(moves: &Vec<Move<O, P>>, room: usize, refs: usize) -> (n: usize)
    ensures
        n == lead(moves@, room as int, refs as int, moves@.len()),
        n <= moves@.len(),
        n < moves@.len() ==> !(moves@[n as int].turns < room && refs + n < usize::MAX),
{
    let mut n: usize = 0;
    while n < moves.len()
        invariant
            n <= moves.len(),
            lead(moves@, room as int, refs as int, n as nat) == n,
        decreases moves.len() - n,
    {
        if moves[n].turns >= room || n >= usize::MAX - refs {
            proof {
                lemma_lead_stuck(moves@, room as int, refs as int, n as nat, moves@.len());
            }
            return n;
        }
        n = n + 1;
    }
    n
}

/// Once a move does not fit, no later one counts.
pub proof fn lemma_lead_stuck<O, P>(moves: Seq<Move<O, P>>, room: int, refs: int, i: nat, n: nat)
    requires
        i < n,
        lead(moves, room, refs, i) == i,
        !(moves[i as int].turns < room && refs + i < usize::MAX),
    ensures
        lead(moves, room, refs, n) == i,
    decreases n,
{
    if n > i + 1 {
        lemma_lead_stuck(moves, room, refs, i, (n - 1) as nat);
    }
}

/// The bucket `bucket` holds a candidate for the move `m` from node
/// `parent`.
pub open spec fn has_move<O: Copy, P: Copy>(bucket: Seq<Cand<O, P>>, parent: u32, m: Move<O, P>) -> bool {
    exists|j: int|
        0 <= j < bucket.len() && (#[trigger] bucket[j]).parent == parent && bucket[j].as_move()
            == m
}

/// No more moves fit than there are.
pub proof fn lemma_lead_le<O, P>(moves: Seq<Move<O, P>>, room: int, refs: int, n: nat)
    ensures
        lead(moves, room, refs, n) <= n,
    decreases n,
{
    if n > 0 {
        lemma_lead_le(moves, room, refs, (n - 1) as nat);
    }
}

/// Where all of the first `n` moves fit, each is due at a turn that has a
/// bucket.
pub proof fn lemma_lead_all<O, P>(moves: Seq<Move<O, P>>, room: int, refs: int, n: nat)
    requires
        lead(moves, room, refs, n) == n,
    ensures
        forall|k: int| 0 <= k < n ==> (#[trigger] moves[k]).turns < room,
    decreases n,
{
    if n > 0 {
        lemma_lead_le(moves, room, refs, (n - 1) as nat);
        lemma_lead_all(moves, room, refs, (n - 1) as nat);
    }
}

/// Where each of the first `n` moves is due at a turn that has a bucket, and
/// the node can count them, all of them fit.
pub proof fn lemma_lead_full<O, P>(moves: Seq<Move<O, P>>, room: int, refs: int, n: nat)
    requires
        forall|k: int| 0 <= k < n ==> (#[trigger] moves[k]).turns < room,
        refs + n <= usize::MAX,
    ensures
        lead(moves, room, refs, n) == n,
    decreases n,
{
    if n > 0 {
        lemma_lead_full(moves, room, refs, (n - 1) as nat);
    }
}

/// Filing appends to the buckets: what a bucket held it still holds, in
/// front, and each move that was filed has a candidate in the bucket of the
/// turn at which it is due.
pub proof fn lemma_filed<O: Copy, P: Copy>(
    pool: Seq<Seq<Cand<O, P>>>,
    moves: Seq<Move<O, P>>,
    parent: u32,
    seed: u64,
    jitter: u64,
    turn: int,
    n: nat,
)
    requires
        n <= moves.len(),
        0 <= turn,
        forall|k: int| 0 <= k < n ==> turn + (#[trigger] moves[k]).turns < pool.len(),
    ensures
        filed(pool, moves, parent, seed, jitter, turn, n).len() == pool.len(),
        forall|b: int|
            0 <= b < pool.len() ==> pool[b].is_prefix_of(
                #[trigger] filed(pool, moves, parent, seed, jitter, turn, n)[b],
            ),
        forall|k: int|
            0 <= k < n ==> has_move(
                filed(pool, moves, parent, seed, jitter, turn, n)[turn + moves[k].turns],
                parent,
                #[trigger] moves[k],
            ),
    decreases n,
{
    if n > 0 {
        lemma_filed(pool, moves, parent, seed, jitter, turn, (n - 1) as nat);
        let p = filed(pool, moves, parent, seed, jitter, turn, (n - 1) as nat);
        let f = filed(pool, moves, parent, seed, jitter, turn, n);
        let m = moves[n - 1];
        let b = turn + m.turns;
        let c = cand_of(m, parent, seed_after(seed, n), jitter);
        assert(f == p.update(b, p[b].push(c)));
        assert forall|k: int| 0 <= k < n implies has_move(
            f[turn + moves[k].turns],
            parent,
            #[trigger] moves[k],
        ) by {
            let bk = turn + moves[k].turns;
            if k == n - 1 {
                assert(f[b][p[b].len() as int] == c);
                assert(c.as_move() == m);
            } else {
                let j = choose|j: int|
                    0 <= j < p[bk].len() && (#[trigger] p[bk][j]).parent == parent
                        && p[bk][j].as_move() == moves[k];
                assert(f[bk][j] == p[bk][j]);
            }
        }
    }
}

impl<D: Domain> BeamSearch<D> {
    /// A candidate for the move `m` from node `y` waits in the bucket of
    /// the turn at which the move is due.
    pub open(crate) spec fn waits(&self, y: int, m: Move<D::Op, D::Progress>) -> bool {
        &&& self.turn + m.turns < self.pool@.len()
        &&& has_move(self.shelves()[self.turn + m.turns], y as u32, m)
    }

    /// A leaf has a move that cannot be filed: it is due at a turn without
    /// a bucket, or the leaf cannot count it with those before it.
    pub open(crate) spec fn stuck(&self) -> bool {
        exists|y: int, k: int|
            self.live(y) && 0 <= k < self.moves_at(y).len() && (self.turn + (
            #[trigger] self.moves_at(y)[k]).turns >= self.pool@.len() || self.nodes[y].refs + k
                >= usize::MAX)
    }

    /// `new` has the buckets of this engine, each with what it held in
    /// front, at the same turn.
    pub open(crate) spec fn piled(&self, new: &Self) -> bool {
        &&& new.turn == self.turn
        &&& new.pool@.len() == self.pool@.len()
        &&& forall|b: int|
            0 <= b < self.pool@.len() ==> (#[trigger] self.shelves()[b]).is_prefix_of(
                new.shelves()[b],
            )
    }

    /// A candidate that waits still waits when more are filed.
    pub(crate) proof fn lemma_waits_kept(&self, new: &Self, y: int, m: Move<D::Op, D::Progress>)
        requires
            self.piled(new),
            self.waits(y, m),
        ensures
            new.waits(y, m),
    {
        let b = self.turn + m.turns;
        let old_b = self.shelves()[b];
        let new_b = new.shelves()[b];
        let j = choose|j: int|
            0 <= j < old_b.len() && (#[trigger] old_b[j]).parent == y as u32 && old_b[j].as_move()
                == m;
        assert(old_b.is_prefix_of(new_b));
        assert(new_b[j] == old_b[j]);
    }

    /// What the buckets hold.
    pub open(crate) spec fn shelves(&self) -> Seq<Seq<Cand<D::Op, D::Progress>>> {
        Seq::new(self.pool@.len(), |b: int| self.pool@[b]@)
    }

    /// The state of the pseudo-random numbers.
    pub open(crate) spec fn seed_of(&self) -> u64 {
        self.seed
    }

    /// How many of the moves from node `i` fit before one does not.
    pub open(crate) spec fn filing(&self, i: int) -> nat {
        lead(
            self.moves_at(i),
            self.pool@.len() - self.turn,
            self.nodes[i].refs as int,
            self.moves_at(i).len(),
        )
    }

    /// All the moves from node `i` fit: each is due at a turn that has a
    /// bucket, and the node can count them all.
    pub open(crate) spec fn can_file(&self, i: int) -> bool {
        self.filing(i) == self.moves_at(i).len()
    }

    /// `new` is this engine after leaves were asked for their continuations:
    /// the tree has the same nodes and links, and what the nodes record of
    /// their states is unchanged.
    pub open(crate) spec fn fed(&self, new: &Self) -> bool {
        &&& new.nodes.len() == self.nodes.len()
        &&& forall|i: int|
            0 <= i < self.nodes.len() ==> #[trigger] new.nodes[i] == (Node {
                refs: new.nodes[i].refs,
                valid: new.nodes[i].valid,
                ..self.nodes[i]
            })
        &&& forall|i: int|
            0 <= i < self.nodes.len() ==> (#[trigger] new.nodes[i]).valid == self.nodes[i].valid
                || new.nodes[i].valid == 0
        &&& new.pool.len() == self.pool.len()
        &&& new.env == self.env
        &&& new.cur_node == self.cur_node
        &&& new.free == self.free
        &&& new.at == self.at
        &&& new.turn == self.turn
        &&& new.ceiling == self.ceiling
        &&& new.alive == self.alive
        &&& new.depth == self.depth
        &&& new.rank == self.rank
        &&& new.paths == self.paths
        &&& new.init == self.init
        &&& new.cap == self.cap
        &&& new.deep == self.deep
    }

    /// While no mark changes, the marks stay in order.
    pub(crate) proof fn lemma_same_marks(&self, new: &Self)
        requires
            self.fed(new),
            self.tree_ok(),
            self.marks_ok(),
            forall|i: int|
                0 <= i < self.nodes.len() ==> (#[trigger] new.nodes[i]).valid == self.nodes[i].valid,
        ensures
            new.marks_ok(),
    {
        assert forall|i: int| new.live(i) implies {
            &&& (#[trigger] new.nodes[i]).valid <= new.at
            &&& i != 0 && new.nodes[i].valid == new.at
                ==> new.nodes[new.nodes[i].parent as int].valid == new.at
        } by {
            assert(self.linked(i));
            assert(self.nodes[i].valid <= self.at);
            let p = self.nodes[i].parent as int;
            if i != 0 && new.nodes[i].valid == new.at {
                assert(new.nodes[p].valid == self.nodes[p].valid);
            }
        }
    }

    /// Asking leaves for continuations keeps the tree consistent and sound.
    pub(crate) proof fn lemma_fed(&self, new: &Self)
        requires
            self.fed(new),
        ensures
            self.tree_ok() ==> new.tree_ok(),
            self.sem_ok() ==> new.sem_ok(),
    {
        if self.tree_ok() {
            assert forall|i: int| new.live(i) implies #[trigger] new.linked(i) by {
                assert(self.linked(i));
            }
            self.lemma_pool_kept(new);
        }
        if self.sem_ok() {
            assert forall|i: int| new.live(i) implies #[trigger] new.sound(i) by {
                assert(self.sound(i));
            }
        }
    }

    /// The moves that the domain offers from the state that node `i` stands
    /// for.
    pub open(crate) spec fn moves_at(&self, i: int) -> Seq<Move<D::Op, D::Progress>> {
        D::moves(
            &self.env,
            replay::<D>(&self.env, self.init@, self.paths@[i]),
            self.nodes[i].progress,
        )
    }

    /// The buckets are in order but for node `idx`, for which `k` candidates
    /// are filed that it does not count yet: every candidate is backed, and
    /// every other node counts the candidates that wait for it.
    pub open(crate) spec fn owes(&self, idx: int, k: int) -> bool {
        &&& forall|b: int, j: int|
            0 <= b < self.pool.len() && 0 <= j < self.pool[b].len() ==> self.backed(
                #[trigger] self.pool[b][j],
            )
        &&& forall|x: int|
            0 <= x < self.nodes.len() ==> (#[trigger] self.nodes[x]).refs + (if x == idx {
                k
            } else {
                0
            }) == cnt_pool(self.pool@, x as u32)
    }

    /// Asks the domain for the continuations of the leaf `idx`, whose state
    /// the engine's state stands in. If each is due at a turn that has a
    /// bucket, and the leaf can count them all, each is put into the bucket
    /// of its turn, with `idx` as its parent and with a ranking key that is
    /// its score plus a pseudo-random amount below `jitter`, and the call
    /// returns how many there were. If not, it fails and nothing is filed.
    /// Either way the arena is left as it was: the caller counts the
    /// candidates for the leaf.
    #[verifier::rlimit(60)]
    pub fn append_cands(&mut self, idx: usize, jitter: u64) -> (r: Result<usize, SearchError>)
        requires
            old(self).tree_ok(),
            old(self).sem_ok(),
            old(self).pool_ok(Seq::empty()),
            old(self).marks_ok(),
            old(self).live(idx as int),
            old(self).slots()[idx as int].child == NONE,
            old(self).stands_at(idx as int),
            !D::goal(old(self).tables(), old(self).slots()[idx as int].progress),
            1 <= jitter <= JITTER_LIMIT,
        ensures
            old(self).fed(final(self)),
            final(self).tree_ok(),
            final(self).sem_ok(),
            final(self).marks_ok(),
            final(self).stands_at(idx as int),
            final(self).que_of() == old(self).que_of(),
            final(self).slots() == old(self).slots(),
            r is Ok <==> old(self).can_file(idx as int),
            r matches Err(e) ==> {
                &&& e == SearchError::ResourceExhausted
                &&& final(self).stuck()
                &&& final(self).pool_ok(Seq::empty())
                &&& final(self).shelves() == old(self).shelves()
                &&& final(self).seed_of() == old(self).seed_of()
            },
            r matches Ok(k) ==> {
                &&& k == old(self).moves_at(idx as int).len()
                &&& old(self).slots()[idx as int].refs + k <= usize::MAX
                &&& final(self).owes(idx as int, k as int)
                &&& final(self).seed_of() == seed_after(old(self).seed_of(), k as nat)
                &&& final(self).shelves() == filed(
                    old(self).shelves(),
                    old(self).moves_at(idx as int),
                    idx as u32,
                    old(self).seed_of(),
                    jitter,
                    old(self).round() as int,
                    k as nat,
                )
            },
    {
        let node = self.nodes[idx];
        let mut moves: Vec<Move<D::Op, D::Progress>> = Vec::new();
        proof {
            assert(self.sound(idx as int));
        }
        self.state.append_cands(&self.env, &node.progress, node.score, node.hash, &mut moves);
        proof {
            assert(old(self).fed(self));
            old(self).lemma_fed(self);
            assert forall|bb: int, k: int|
                0 <= bb < self.pool.len() && 0 <= k < self.pool[bb].len() implies self.backed(
                #[trigger] self.pool[bb][k],
            ) by {
                assert(old(self).backed(old(self).pool[bb][k]));
            }
            old(self).lemma_same_marks(self);
            assert(moves@ =~= old(self).moves_at(idx as int));
            assert(self.shelves() =~= old(self).shelves());
            assert(self.moves_at(idx as int) == old(self).moves_at(idx as int));
        }
        let ghost all = old(self).moves_at(idx as int);
        let ghost room = old(self).pool@.len() - old(self).turn;
        let ghost refs0 = old(self).nodes[idx as int].refs as int;
        let first = fits(&moves, self.pool.len() - self.turn, self.nodes[idx].refs);
        if first < moves.len() {
            proof {
                let m = self.moves_at(idx as int)[first as int];
                assert(self.live(idx as int) && 0 <= first < self.moves_at(idx as int).len() && (
                self.turn + m.turns >= self.pool@.len() || self.nodes[idx as int].refs + first
                    >= usize::MAX));
            }
            return Err(SearchError::ResourceExhausted);
        }
        proof {
            lemma_lead_all(all, room, refs0, all.len());
            assert(self.owes(idx as int, 0)) by {
                assert forall|x: int| 0 <= x < self.nodes.len() implies (#[trigger] self.nodes[x]).refs
                    + 0 == cnt_pool(self.pool@, x as u32) by {
                    assert(cnt(Seq::<Cand<D::Op, D::Progress>>::empty(), x as u32) == 0);
                }
            }
        }
        let mut i: usize = 0;
        while i < moves.len()
            invariant
                i <= moves.len(),
                moves@ == all,
                all == old(self).moves_at(idx as int),
                room == old(self).pool@.len() - old(self).turn,
                idx < 0xffff_ffff,
                forall|k: int| 0 <= k < all.len() ==> (#[trigger] all[k]).turns < room,
                self.seed == seed_after(old(self).seed, i as nat),
                self.shelves() == filed(
                    old(self).shelves(),
                    all,
                    idx as u32,
                    old(self).seed,
                    jitter,
                    old(self).turn as int,
                    i as nat,
                ),
                old(self).tree_ok(),
                old(self).live(idx as int),
                old(self).fed(self),
                self.tree_ok(),
                self.sem_ok(),
                self.owes(idx as int, i as int),
                self.marks_ok(),
                self.stands_at(idx as int),
                self.que == old(self).que,
                self.nodes@ == old(self).nodes@,
                1 <= jitter <= JITTER_LIMIT,
                forall|k: int|
                    0 <= k < moves.len() ==> offered::<D>(
                        &self.env,
                        self.state.view_of(),
                        #[trigger] moves[k],
                    ),
            decreases moves.len() - i,
        {
            let m = moves[i];
            let ghost before = *self;
            proof {
                assert(all[i as int].turns < room);
            }
            let b = self.turn + m.turns;
            let j = crate::rnd::next(&mut self.seed) % jitter;
            let c = Cand {
                op: m.op,
                parent: idx as u32,
                eval_score: m.score + (j as i64),
                hash: m.hash,
                progress: m.progress,
                score: m.score,
                key: m.key,
                turns: m.turns,
            };
            self.pool[b].push(c);
            proof {
                assert(c == cand_of(m, idx as u32, seed_after(old(self).seed, (i + 1) as nat), jitter));
                assert(self.shelves() =~= before.shelves().update(
                    b as int,
                    before.shelves()[b as int].push(c),
                ));
                assert(before.fed(self));
                before.lemma_fed(self);
                before.lemma_same_marks(self);
                assert(self.backed(c));
                assert forall|bb: int, k: int|
                    0 <= bb < self.pool.len() && 0 <= k < self.pool[bb].len() implies self.backed(
                    #[trigger] self.pool[bb][k],
                ) by {
                    if bb == b && k == before.pool[bb].len() {
                    } else {
                        assert(before.backed(before.pool[bb][k]));
                    }
                }
                assert forall|x: int| 0 <= x < self.nodes.len() implies (#[trigger] self.nodes[x]).refs
                    + (if x == idx {
                    i + 1
                } else {
                    0
                }) == cnt_pool(self.pool@, x as u32) by {
                    lemma_cnt_pool_swap(before.pool@, self.pool@, b as int, x as u32);
                    lemma_cnt_push(before.pool[b as int]@, c, x as u32);
                    assert(before.nodes[x].refs + (if x == idx {
                        i as int
                    } else {
                        0
                    }) == cnt_pool(before.pool@, x as u32));
                }
            }
            i = i + 1;
        }
        proof {
            if all.len() > 0 {
                lemma_lead_le(all, room, refs0, (all.len() - 1) as nat);
                assert(refs0 + (all.len() - 1) < usize::MAX);
            }
        }
        Ok(moves.len())
    }
}

impl<D: Domain> BeamSearch<D> {
    /// The leaves that wait to be taken out of the tree: each is in the tree,
    /// has no child, has no candidate waiting, is off the current generation,
    /// and is listed once.
    pub open(crate) spec fn que_ok(&self) -> bool {
        &&& forall|j: int|
            0 <= j < self.que.len() ==> {
                let q = #[trigger] self.que[j];
                &&& self.live(q as int)
                &&& self.nodes[q as int].child == NONE
                &&& self.nodes[q as int].refs == 0
                &&& self.nodes[q as int].valid == 0
            }
        &&& forall|j: int, k: int| 0 <= j < k < self.que.len() ==> self.que[j] != self.que[k]
    }

    /// `chain` lists the nodes from below the root down to `cur`, and `trail`
    /// their ranks among their siblings.
    pub open(crate) spec fn trailed(&self, chain: Seq<int>, trail: Seq<nat>, cur: int) -> bool {
        &&& chain.len() == trail.len()
        &&& chain.len() < self.deep@
        &&& forall|k: int| 0 <= k < trail.len() ==> #[trigger] trail[k] + 2 <= self.cap@ + 1
        &&& chain.len() == self.depth@[cur]
        &&& cur == (if chain.len() == 0 {
            0
        } else {
            chain.last()
        })
        &&& forall|k: int|
            0 <= k < chain.len() ==> {
                &&& self.live(#[trigger] chain[k])
                &&& chain[k] != 0
                &&& self.depth@[chain[k]] == k + 1
                &&& trail[k] == self.rank@[chain[k]]
                &&& self.nodes[chain[k]].parent == (if k == 0 {
                    0
                } else {
                    chain[k - 1]
                })
            }
    }

    /// What holds at every step of a walk that stands at node `cur`.
    pub open(crate) spec fn walking(&self, start: &Self, cur: int) -> bool {
        &&& start.tree_ok()
        &&& start.fed(self)
        &&& self.tree_ok()
        &&& self.sem_ok()
        &&& self.pool_ok(Seq::empty())
        &&& self.marks_ok()
        &&& self.que_ok()
        &&& self.live(cur)
        &&& self.stands_at(cur)
        &&& !D::goal(&self.env, self.nodes[0].progress)
    }

    /// A change of the state alone, to what node `cur` stands for, keeps a
    /// walk in order.
    pub(crate) proof fn lemma_moved(&self, new: &Self, start: &Self, was: int, cur: int)
        requires
            self.walking(start, was),
            new.live(cur),
            new.stands_at(cur),
            new.env == self.env,
            new.nodes == self.nodes,
            new.que == self.que,
            new.cur_node == self.cur_node,
            new.free == self.free,
            new.at == self.at,
            new.pool == self.pool,
            new.turn == self.turn,
            new.ceiling == self.ceiling,
            new.alive == self.alive,
            new.depth == self.depth,
            new.rank == self.rank,
            new.paths == self.paths,
            new.init == self.init,
            new.cap == self.cap,
            new.deep == self.deep,
        ensures
            new.walking(start, cur),
    {
        assert(self.fed(new));
        self.lemma_fed(new);
        assert forall|bb: int, k: int|
            0 <= bb < new.pool.len() && 0 <= k < new.pool[bb].len() implies new.backed(
            #[trigger] new.pool[bb][k],
        ) by {
            assert(self.backed(self.pool[bb][k]));
        }
        self.lemma_same_marks(new);
    }

    /// No sibling of `from` whose rank is above `lo` and not above that of
    /// `from` is marked for the current generation.
    pub(crate) open spec fn unmarked_between(&self, from: int, lo: int) -> bool {
        forall|s: int|
            self.live(s) && s != 0 && (#[trigger] self.nodes[s]).parent == self.nodes[from].parent
                && lo < self.rank@[s] <= self.rank@[from] ==> self.nodes[s].valid != self.at
    }

    /// The first node, among `from` and the siblings after it, that is
    /// marked for the current generation; `NONE` if there is none.
    #[verifier::rlimit(60)]
    pub(crate) fn first_valid(&self, from: u32) -> (r: u32)
        requires
            self.tree_ok(),
            from != NONE ==> self.live(from as int) && from != 0,
        ensures
            r != NONE ==> {
                &&& from != NONE
                &&& self.live(r as int)
                &&& r != 0
                &&& self.nodes[r as int].valid == self.at
                &&& self.nodes[r as int].parent == self.nodes[from as int].parent
                &&& self.rank@[r as int] <= self.rank@[from as int]
                &&& self.unmarked_between(from as int, self.rank@[r as int] as int)
            },
            r == NONE && from != NONE ==> self.unmarked_between(from as int, -1),
    {
        let mut at = from;
        while at != NONE && self.nodes[at as usize].valid != self.at
            invariant
                self.tree_ok(),
                from != NONE ==> self.live(from as int) && from != 0,
                at != NONE ==> {
                    &&& from != NONE
                    &&& self.live(at as int)
                    &&& at != 0
                    &&& self.nodes[at as int].parent == self.nodes[from as int].parent
                    &&& self.rank@[at as int] <= self.rank@[from as int]
                    &&& self.unmarked_between(from as int, self.rank@[at as int] as int)
                },
                at == NONE && from != NONE ==> self.unmarked_between(from as int, -1),
            decreases
                    (if at == NONE {
                        0nat
                    } else {
                        self.rank@[at as int] + 1
                    }),
        {
            proof {
                assert(self.linked(at as int));
            }
            let nx = self.nodes[at as usize].next;
            proof {
                let lo: int = if nx == NONE {
                    -1
                } else {
                    self.rank@[nx as int] as int
                };
                assert forall|s: int|
                    self.live(s) && s != 0 && (#[trigger] self.nodes[s]).parent
                        == self.nodes[from as int].parent && lo < self.rank@[s]
                        <= self.rank@[from as int] implies self.nodes[s].valid != self.at by {
                    if self.rank@[s] <= self.rank@[at as int] && s != at {
                        self.lemma_sib(at as int, s);
                    }
                }
            }
            at = nx;
        }
        at
    }

    /// `new` is this engine with its state changed and nothing else.
    pub open(crate) spec fn moved(&self, new: &Self) -> bool {
        &&& new.env == self.env
        &&& new.nodes == self.nodes
        &&& new.que == self.que
        &&& new.cur_node == self.cur_node
        &&& new.free == self.free
        &&& new.at == self.at
        &&& new.pool == self.pool
        &&& new.turn == self.turn
        &&& new.ceiling == self.ceiling
        &&& new.seed == self.seed
        &&& new.alive == self.alive
        &&& new.depth == self.depth
        &&& new.rank == self.rank
        &&& new.paths == self.paths
        &&& new.init == self.init
        &&& new.cap == self.cap
        &&& new.deep == self.deep
    }

    /// Moves the state from node `cur` to its child `child`.
    pub(crate) fn go_down(&mut self, cur: usize, child: u32, Ghost(start): Ghost<Self>)
        requires
            old(self).walking(&start, cur as int),
            old(self).live(child as int),
            child != 0,
            old(self).nodes[child as int].parent == cur,
        ensures
            final(self).walking(&start, child as int),
            old(self).moved(final(self)),
    {
        let op = self.nodes[child as usize].op;
        proof {
            assert(self.linked(child as int));
            assert(self.sound(child as int));
            assert(self.paths@[child as int].drop_last() =~= self.paths@[cur as int]);
        }
        self.state.apply(&self.env, &op);
        proof {
            old(self).lemma_moved(self, &start, cur as int, child as int);
        }
    }

    /// Moves the state from node `cur` back to its parent.
    pub(crate) fn go_up(&mut self, cur: usize, Ghost(start): Ghost<Self>)
        requires
            old(self).walking(&start, cur as int),
            cur != 0,
        ensures
            final(self).walking(&start, old(self).nodes[cur as int].parent as int),
            old(self).moved(final(self)),
    {
        let node = self.nodes[cur];
        proof {
            assert(self.linked(cur as int));
            assert(self.sound(cur as int));
            assert(self.sound(node.parent as int));
            assert(self.paths@[cur as int].drop_last() =~= self.paths@[node.parent as int]);
            D::step_unstep(
                &self.env,
                replay::<D>(&self.env, self.init@, self.paths@[node.parent as int]),
                node.op,
            );
        }
        self.state.revert(&self.env, &node.op);
        proof {
            old(self).lemma_moved(self, &start, cur as int, node.parent as int);
        }
    }

    /// Asks the leaf `cur`, where the state stands, for its continuations.
    /// A leaf that has none, and none waiting from before, goes on the list
    /// of leaves to take out and loses its mark.
    #[verifier::rlimit(60)]
    pub(crate) fn visit(&mut self, cur: usize, jitter: u64, Ghost(start): Ghost<Self>) -> (r:
        Result<(), SearchError>)
        requires
            old(self).walking(&start, cur as int),
            old(self).swept(&start, cur as int, true),
            old(self).tallied(&start),
            old(self).root_tallied(&start, cur as int, true),
            old(self).nodes[cur as int].valid == old(self).at,
            old(self).nodes[cur as int].child == NONE,
            1 <= jitter <= JITTER_LIMIT,
        ensures
            final(self).walking(&start, cur as int),
            old(self).fed(final(self)),
            start.due_leaf(cur as int),
            r is Ok <==> start.can_file(cur as int),
            r matches Err(e) ==> e == SearchError::ResourceExhausted && final(self).stuck(),
            r is Ok ==> final(self).seed_of() == seed_after(
                old(self).seed_of(),
                old(self).moves_at(cur as int).len(),
            ) && final(self).shelves() == filed(
                old(self).shelves(),
                old(self).moves_at(cur as int),
                cur as u32,
                old(self).seed_of(),
                jitter,
                old(self).round() as int,
                old(self).moves_at(cur as int).len(),
            ),
            r is Ok ==> final(self).swept(&start, cur as int, false),
            r is Ok ==> final(self).tallied(&start),
            r is Ok ==> final(self).root_tallied(&start, cur as int, false),
    {
        proof {
            assert(self.sound(cur as int));
            assert(old(self).fed(self));
            assert(start.fed(self));
            if !start.due_leaf(cur as int) {
                assert(self.untouched(&start, cur as int));
            }
            assert(start.due_leaf(cur as int));
            if cur != 0 {
                assert(self.asked(&start, cur as int) || (self.nodes[cur as int]
                    == start.nodes[cur as int] && !self.que@.contains(cur as u32)));
            }
            assert(self.nodes[cur as int] == start.nodes[cur as int]);
            assert(start.moves_at(cur as int) == self.moves_at(cur as int));
            assert(start.can_file(cur as int) == self.can_file(cur as int));
        }
        let res = self.append_cands(cur, jitter);
        let k = match res {
            Err(e) => {
                proof {
                    assert forall|j: int| 0 <= j < self.que.len() implies {
                        let q = #[trigger] self.que[j];
                        &&& self.live(q as int)
                        &&& self.nodes[q as int].child == NONE
                        &&& self.nodes[q as int].refs == 0
                        &&& self.nodes[q as int].valid == 0
                    } by {
                        let q = old(self).que[j];
                        assert(old(self).nodes[q as int].valid == 0);
                    }
                    assert(self.que_ok());
                    assert(start.fed(self));
                }
                return Err(e);
            },
            Ok(k) => k,
        };
        let ghost filed_all = *self;
        self.nodes[cur].refs = self.nodes[cur].refs + k;
        proof {
            assert(filed_all.fed(self));
            filed_all.lemma_fed(self);
            filed_all.lemma_same_marks(self);
            assert forall|bb: int, j: int|
                0 <= bb < self.pool.len() && 0 <= j < self.pool[bb].len() implies self.backed(
                #[trigger] self.pool[bb][j],
            ) by {
                assert(filed_all.backed(filed_all.pool[bb][j]));
            }
            assert forall|x: int| 0 <= x < self.nodes.len() implies (#[trigger] self.nodes[x]).refs
                == cnt_pool(self.pool@, x as u32) + cnt(
                Seq::<Cand<D::Op, D::Progress>>::empty(),
                x as u32,
            ) by {
                assert(filed_all.nodes[x].refs + (if x == cur {
                    k as int
                } else {
                    0
                }) == cnt_pool(filed_all.pool@, x as u32));
            }
            assert(self.pool_ok(Seq::empty()));
            assert(old(self).fed(self));
            assert(self.seed_of() == filed_all.seed_of());
            assert(self.shelves() =~= filed_all.shelves());
        }
        proof {
            assert forall|j: int| 0 <= j < self.que.len() implies {
                let q = #[trigger] self.que[j];
                &&& self.live(q as int)
                &&& self.nodes[q as int].child == NONE
                &&& self.nodes[q as int].refs == 0
                &&& self.nodes[q as int].valid == 0
            } by {
                let q = old(self).que[j];
                assert(old(self).nodes[q as int].valid == 0);
                assert(q != cur);
                assert(self.slots()[q as int].refs == old(self).slots()[q as int].refs);
                assert(self.slots()[q as int].valid == old(self).slots()[q as int].valid);
            }
            assert(self.que_ok());
            assert(start.fed(self));
            assert forall|y: int| #[trigger] self.pending(y) && y != cur implies self.nodes[y].valid
                == self.at && start.after(y, cur as int) by {
                assert(self.slots()[y].valid == old(self).slots()[y].valid);
                assert(old(self).pending(y));
                Self::lemma_leaf(&start, cur as int, y);
            }
        }
        let ghost fed_once = *self;
        match res {
            Err(e) => Err(e),
            Ok(_) => {
                proof {
                    assert(self.slots()[cur as int].refs == old(self).slots()[cur as int].refs + k);
                    assert(self.slots()[cur as int].valid == old(self).slots()[cur as int].valid);
                }
                let spent = k == 0 && self.nodes[cur].refs == 0;
                if spent {
                    self.que.push(cur as u32);
                }
                self.nodes[cur].valid = 0;
                proof {
                    assert(fed_once.fed(self));
                    fed_once.lemma_fed(self);
                    assert forall|bb: int, k: int|
                        0 <= bb < self.pool.len() && 0 <= k < self.pool[bb].len() implies self.backed(
                        #[trigger] self.pool[bb][k],
                    ) by {
                        assert(fed_once.backed(fed_once.pool[bb][k]));
                    }
                    assert forall|i: int| self.live(i) implies {
                        &&& (#[trigger] self.nodes[i]).valid <= self.at
                        &&& i != 0 && self.nodes[i].valid == self.at
                            ==> self.nodes[self.nodes[i].parent as int].valid == self.at
                    } by {
                        assert(fed_once.linked(i));
                        assert(fed_once.nodes[i].valid <= fed_once.at);
                        if i != 0 && self.nodes[i].valid == self.at {
                            fed_once.lemma_first_child(i);
                            let p = fed_once.nodes[i].parent as int;
                            assert(p != cur);
                            assert(fed_once.nodes[p].valid == fed_once.at);
                            assert(self.nodes[p].valid == fed_once.nodes[p].valid);
                        }
                    }
                    assert forall|j: int| 0 <= j < self.que.len() implies {
                        let q = #[trigger] self.que[j];
                        &&& self.live(q as int)
                        &&& self.nodes[q as int].child == NONE
                        &&& self.nodes[q as int].refs == 0
                        &&& self.nodes[q as int].valid == 0
                    } by {
                        if j < fed_once.que.len() {
                            let q = fed_once.que[j];
                            assert(fed_once.nodes[q as int].valid == 0);
                        }
                    }
                    assert forall|j: int, k: int| 0 <= j < k < self.que.len() implies self.que[j]
                        != self.que[k] by {
                        let q = fed_once.que[j];
                        assert(fed_once.nodes[q as int].valid == 0);
                    }
                    if spent {
                        assert(self.que@[fed_once.que@.len() as int] == cur as u32);
                    }
                    assert(!self.pending(cur as int));
                    assert forall|y: int| #[trigger] self.pending(y) implies fed_once.pending(y) by {
                        assert(y != cur);
                    }
                    assert forall|y: int|
                        0 <= y < start.nodes.len() && !start.due_leaf(y) implies #[trigger] self.untouched(
                        &start,
                        y,
                    ) by {
                        assert(old(self).untouched(&start, y));
                        assert(y != cur);
                        assert(fed_once.slots()[y].refs == old(self).slots()[y].refs);
                        assert(fed_once.slots()[y].valid == old(self).slots()[y].valid);
                        assert(self.nodes[y] == old(self).nodes[y]);
                    }
                    assert forall|y: int| #[trigger] self.pending(y) implies self.nodes[y].valid
                        == self.at && start.after(y, cur as int) by {
                        assert(fed_once.pending(y));
                        assert(y != cur);
                    }
                    let all = old(self).moves_at(cur as int);
                    lemma_lead_all(
                        all,
                        old(self).pool@.len() - old(self).turn,
                        old(self).nodes[cur as int].refs as int,
                        all.len(),
                    );
                    lemma_filed(
                        old(self).shelves(),
                        all,
                        cur as u32,
                        old(self).seed_of(),
                        jitter,
                        old(self).round() as int,
                        all.len(),
                    );
                    assert(self.shelves() =~= fed_once.shelves());
                    assert(old(self).piled(self));
                    assert forall|y: int| #[trigger] start.due_leaf(y) implies (y == cur
                        ==> self.asked(&start, y)) && (y != cur ==> (old(self).asked(&start, y)
                            ==> self.asked(&start, y)) && (self.nodes[y] == start.nodes[y]
                        && !self.que@.contains(y as u32) <==> old(self).nodes[y] == start.nodes[y]
                        && !old(self).que@.contains(y as u32))) by {
                        assert(self.slots()[y].refs == fed_once.slots()[y].refs || y == cur);
                        if y != cur {
                            if old(self).asked(&start, y) {
                                assert forall|k: int|
                                    0 <= k < start.moves_at(y).len() implies self.waits(
                                    y,
                                    #[trigger] start.moves_at(y)[k],
                                ) by {
                                    old(self).lemma_waits_kept(self, y, start.moves_at(y)[k]);
                                }
                            }
                            assert(fed_once.slots()[y].refs == old(self).slots()[y].refs);
                            assert(fed_once.slots()[y].valid == old(self).slots()[y].valid);
                            assert(self.nodes[y] == old(self).nodes[y]);
                            if old(self).que@.contains(y as u32) {
                                let q = choose|q: int|
                                    0 <= q < old(self).que@.len() && old(self).que@[q] == y as u32;
                                assert(self.que@[q] == y as u32);
                            }
                            if self.que@.contains(y as u32) {
                                let q = choose|q: int|
                                    0 <= q < self.que@.len() && self.que@[q] == y as u32;
                                assert(q < old(self).que@.len());
                                assert(old(self).que@[q] == y as u32);
                            }
                        } else {
                            assert(start.moves_at(y) == old(self).moves_at(y));
                            assert(start.can_file(y));
                            if y != 0 {
                                assert(old(self).asked(&start, y) || (old(self).nodes[y]
                                    == start.nodes[y] && !old(self).que@.contains(y as u32)));
                            }
                            assert(old(self).nodes[y] == start.nodes[y]);
                            assert(!old(self).que@.contains(y as u32));
                            if self.que@.contains(y as u32) {
                                let q = choose|q: int|
                                    0 <= q < self.que@.len() && self.que@[q] == y as u32;
                                if q < old(self).que@.len() {
                                    assert(old(self).que@[q] == y as u32);
                                }
                            }
                        }
                    }
                }
                Ok(())
            },
        }
    }

    /// Visits every leaf that the current generation's marks lead to, in
    /// depth-first order, with the one state of the engine: going down a
    /// level applies the child's operation, coming back reverts it. Each
    /// leaf is asked for its continuations, which go to the pool: each
    /// waits in the bucket of the turn at which it is due. From a root
    /// that stands alone the buckets are exactly those that filing the
    /// root's moves gives. On return the state is back at the root, unless
    /// the walk failed.
    #[verifier::rlimit(60)]
    pub fn enum_cands(&mut self, jitter: u64) -> (r: Result<(), SearchError>)
        requires
            old(self).wf(),
            !D::goal(old(self).tables(), old(self).slots()[0].progress),
            1 <= jitter <= JITTER_LIMIT,
        ensures
            old(self).fed(final(self)),
            final(self).tree_ok(),
            final(self).sem_ok(),
            final(self).pool_ok(Seq::empty()),
            final(self).marks_ok(),
            final(self).que_ok(),
            r is Ok ==> final(self).base(),
            r is Ok ==> final(self).harvested(),
            r is Ok ==> final(self).walked(),
            r is Ok && old(self).slots().len() == 1
                && old(self).slots()[0].valid == old(self).generation()
                ==> final(self).seed_of() == seed_after(
                old(self).seed_of(),
                old(self).moves_at(0).len(),
            ) && final(self).shelves() == filed(
                old(self).shelves(),
                old(self).moves_at(0),
                0u32,
                old(self).seed_of(),
                jitter,
                old(self).round() as int,
                old(self).moves_at(0).len(),
            ),
            r is Ok <==> forall|y: int| #[trigger] old(self).due_leaf(y) ==> old(self).can_file(y),
            r matches Err(e) ==> e == SearchError::ResourceExhausted && final(self).stuck(),
            r is Ok ==> forall|y: int| #[trigger]
                old(self).due_leaf(y) ==> {
                    &&& final(self).slots()[y].valid == 0
                    &&& final(self).slots()[y].refs == old(self).slots()[y].refs + old(self).moves_at(y).len()
                    &&& final(self).que_of().contains(y as u32) <==> final(self).slots()[y].refs
                        == 0
                    &&& forall|k: int|
                        0 <= k < old(self).moves_at(y).len() ==> final(self).waits(
                            y,
                            #[trigger] old(self).moves_at(y)[k],
                        )
                },
    {
        self.que.clear();
        proof {
            assert(old(self).fed(self));
            old(self).lemma_fed(self);
            assert forall|bb: int, k: int|
                0 <= bb < self.pool.len() && 0 <= k < self.pool[bb].len() implies self.backed(
                #[trigger] self.pool[bb][k],
            ) by {
                assert(old(self).backed(old(self).pool[bb][k]));
            }
            old(self).lemma_same_marks(self);
            assert(self.walking(old(self), 0));
            assert forall|y: int| #[trigger] self.pending(y) implies self.nodes[y].valid == self.at
                && old(self).ahead(y, 0) by {
                Self::lemma_root_order(old(self), y);
            }
            assert forall|y: int|
                0 <= y < old(self).nodes.len() && !old(self).due_leaf(y) implies #[trigger] self.untouched(
                old(self),
                y,
            ) by {}
            assert(self.tallied(old(self)));
            assert(self.root_tallied(old(self), 0, true));
        }
        if self.nodes[0].valid != self.at {
            proof {
                assert forall|i: int| #[trigger] self.spent(i) implies self.que@.contains(
                    i as u32,
                ) by {
                    if !self.que@.contains(i as u32) {
                        assert(old(self).spent(i));
                        self.lemma_root_marked(i);
                    }
                }
                assert forall|y: int| #[trigger] old(self).due_leaf(y) implies false by {
                    assert(self.nodes[y].valid == old(self).nodes[y].valid);
                    self.lemma_root_marked(y);
                }
            }
            return Ok(());
        }
        let r = self.no_dfs(jitter, Ghost(*old(self)));
        proof {
            if r is Ok {
                assert forall|i: int| #[trigger] self.spent(i) implies self.que@.contains(
                    i as u32,
                ) by {
                    if !self.que@.contains(i as u32) {
                        if old(self).due_leaf(i) {
                            if !self.asked(old(self), i) {
                                assert(self.nodes[i] == old(self).nodes[i]);
                                assert(self.pending(i));
                                Self::lemma_root_order(old(self), i);
                            }
                        } else {
                            assert(self.untouched(old(self), i));
                            assert(old(self).spent(i));
                        }
                    }
                }
                assert forall|y: int| #[trigger] old(self).due_leaf(y) implies self.asked(
                    old(self),
                    y,
                ) by {
                    if y != 0 && !self.asked(old(self), y) {
                        assert(self.nodes[y] == old(self).nodes[y]);
                        assert(self.pending(y));
                        Self::lemma_root_order(old(self), y);
                    }
                }
            }
        }
        r
    }

    /// Leaves node `cur` behind: goes up until a node is found that has a
    /// later sibling marked for the current generation, and moves the state
    /// to that sibling; or until the root is reached. Returns the node the
    /// state stands at, and whether it is such a sibling.
    #[verifier::rlimit(60)]
    pub(crate) fn backtrack(
        &mut self,
        cur: usize,
        Ghost(start): Ghost<Self>,
        Ghost(chain): Ghost<Seq<int>>,
        Ghost(trail): Ghost<Seq<nat>>,
    ) -> (r: (usize, bool, Ghost<Seq<int>>, Ghost<Seq<nat>>))
        requires
            old(self).walking(&start, cur as int),
            old(self).trailed(chain, trail, cur as int),
            old(self).swept(&start, cur as int, false),
            old(self).tallied(&start),
            old(self).root_tallied(&start, cur as int, false),
        ensures
            final(self).tallied(&start),
            final(self).root_tallied(&start, r.0 as int, false),
            final(self).walking(&start, r.0 as int),
            final(self).trailed(r.2@, r.3@, r.0 as int),
            old(self).moved(final(self)),
            !r.1 ==> r.0 == 0,
            final(self).swept(&start, r.0 as int, r.1),
            r.1 ==> final(self).nodes[r.0 as int].valid == final(self).at && code(
                r.3@,
                old(self).deep@,
                old(self).cap@ + 1,
            ) < code(trail, old(self).deep@, old(self).cap@ + 1),
    {
        let mut cur = cur;
        let ghost mut chain = chain;
        let ghost mut trail = trail;
        let ghost w = self.deep@;
        let ghost b = self.cap@ + 1;
        let ghost base = code(trail, w, b);
        let ghost p0 = pw(b, (w - trail.len()) as nat) as int;
        let mut found = false;
        proof {
            lemma_pw_pos(b, (w - trail.len()) as nat);
        }
        loop
            invariant_except_break
                code(trail, w, b) + p0 <= base + pw(b, (w - trail.len()) as nat),
                !found,
            invariant
                self.walking(&start, cur as int),
                self.trailed(chain, trail, cur as int),
                self.swept(&start, cur as int, found),
                self.tallied(&start),
                self.root_tallied(&start, cur as int, false),
                old(self).moved(self),
                w == self.deep@,
                b == self.cap@ + 1,
                p0 >= 1,
            ensures
                !found ==> cur == 0,
                found ==> self.nodes[cur as int].valid == self.at && code(trail, w, b) < base,
            decreases trail.len(),
        {
            if cur == 0 {
                break ;
            }
            proof {
                assert(self.linked(cur as int));
            }
            let parent = self.nodes[cur].parent;
            let next = self.first_valid(self.nodes[cur].next);
            let ghost here = *self;
            proof {
                if self.nodes[cur as int].next != NONE {
                    assert(self.linked(self.nodes[cur as int].next as int));
                }
                if next == NONE {
                    assert forall|y: int| #[trigger] self.pending(y) implies self.nodes[y].valid
                        == self.at && start.after(y, parent as int) by {
                        Self::lemma_up(&start, self, cur as int, y);
                    }
                    assert(self.swept(&start, parent as int, false));
                } else {
                    assert forall|y: int| #[trigger] self.pending(y) implies self.nodes[y].valid
                        == self.at && start.ahead(y, next as int) by {
                        Self::lemma_side(&start, self, cur as int, next as int, y);
                    }
                    assert(self.swept(&start, next as int, true));
                }
            }
            self.go_up(cur, Ghost(start));
            proof {
                here.lemma_tallied_moved(self, &start);
                assert(here.root_tallied(&start, 0, false));
                assert(self.root_tallied(&start, 0, false));
            }
            if next == NONE {
                proof {
                    here.lemma_swept_moved(self, &start, parent as int, false);
                    lemma_code_up(trail, w, b, base, p0);
                    chain = chain.drop_last();
                    trail = trail.drop_last();
                }
                cur = parent as usize;
            } else {
                let ghost mid = *self;
                proof {
                    here.lemma_swept_moved(self, &start, next as int, true);
                    assert(self.linked(next as int));
                    lemma_code_side(trail, self.rank@[next as int], w, b, base, p0);
                }
                self.go_down(parent as usize, next, Ghost(start));
                proof {
                    mid.lemma_swept_moved(self, &start, next as int, true);
                    mid.lemma_tallied_moved(self, &start);
                    assert(mid.root_tallied(&start, 0, false));
                    assert(self.root_tallied(&start, 0, false));
                    chain = chain.drop_last().push(next as int);
                    trail = trail.drop_last().push(self.rank@[next as int]);
                }
                cur = next as usize;
                found = true;
                break ;
            }
        }
        (cur, found, Ghost(chain), Ghost(trail))
    }

    /// The walk itself, from the root and back to it.
    #[verifier::rlimit(60)]
    pub(crate) fn no_dfs(&mut self, jitter: u64, Ghost(start): Ghost<Self>) -> (r: Result<
        (),
        SearchError,
    >)
        requires
            old(self).walking(&start, 0),
            old(self).swept(&start, 0, true),
            old(self).tallied(&start),
            old(self).root_tallied(&start, 0, true),
            old(self).nodes[0].valid == old(self).at,
            old(self).shelves() == start.shelves(),
            old(self).seed_of() == start.seed_of(),
            1 <= jitter <= JITTER_LIMIT,
        ensures
            r is Ok && start.nodes.len() == 1 ==> final(self).seed_of() == seed_after(
                start.seed_of(),
                start.moves_at(0).len(),
            ) && final(self).shelves() == filed(
                start.shelves(),
                start.moves_at(0),
                0u32,
                start.seed_of(),
                jitter,
                start.round() as int,
                start.moves_at(0).len(),
            ),
            exists|cur: int| final(self).walking(&start, cur),
            r is Ok ==> final(self).walking(&start, 0),
            r is Ok ==> final(self).swept(&start, 0, false),
            r is Ok ==> final(self).tallied(&start),
            r is Ok ==> final(self).root_tallied(&start, 0, false),
            r is Ok <==> forall|y: int| #[trigger] start.due_leaf(y) ==> start.can_file(y),
            r matches Err(e) ==> e == SearchError::ResourceExhausted && final(self).stuck(),
    {
        let mut cur: usize = 0;
        let ghost mut chain = Seq::<int>::empty();
        let ghost mut trail = Seq::<nat>::empty();
        let ghost w = self.deep@;
        let ghost b = self.cap@ + 1;
        proof {
            assert(self.linked(0));
        }
        loop
            invariant
                self.walking(&start, cur as int),
                self.trailed(chain, trail, cur as int),
                self.swept(&start, cur as int, true),
                self.tallied(&start),
                self.root_tallied(&start, cur as int, true),
                self.nodes[cur as int].valid == self.at,
                start.nodes.len() == 1 ==> cur == 0 && self.shelves() == start.shelves()
                    && self.seed_of() == start.seed_of(),
                w == self.deep@,
                b == self.cap@ + 1,
                1 <= jitter <= JITTER_LIMIT,
            decreases code(trail, w, b),
        {
            proof {
                assert(self.linked(cur as int));
                lemma_code_floor(trail, w, b);
            }
            let child = self.first_valid(self.nodes[cur].child);
            if child != NONE {
                let ghost here = *self;
                proof {
                    assert(self.linked(child as int));
                    lemma_code_down(trail, self.rank@[child as int], w, b);
                    assert forall|y: int| #[trigger] self.pending(y) implies self.nodes[y].valid
                        == self.at && start.ahead(y, child as int) by {
                        Self::lemma_down(&start, self, cur as int, child as int, y);
                    }
                    assert(self.swept(&start, child as int, true));
                }
                self.go_down(cur, child, Ghost(start));
                proof {
                    here.lemma_swept_moved(self, &start, child as int, true);
                    here.lemma_tallied_moved(self, &start);
                    assert(start.nodes[cur as int].child == here.nodes[cur as int].child);
                    if cur != 0 {
                        assert(here.root_tallied(&start, 0, false));
                        assert(self.root_tallied(&start, 0, false));
                    }
                    chain = chain.push(child as int);
                    trail = trail.push(self.rank@[child as int]);
                    lemma_code_floor(trail, w, b);
                }
                cur = child as usize;
            } else {
                let ghost here = *self;
                if self.nodes[cur].child == NONE {
                    proof {
                        if start.nodes.len() == 1 {
                            assert(self.nodes[0] == start.nodes[0]) by {
                                assert(start.fed(self));
                                assert(self.root_tallied(&start, 0, true));
                            }
                            assert(self.moves_at(0) == start.moves_at(0));
                        }
                    }
                    match self.visit(cur, jitter, Ghost(start)) {
                        Err(e) => {
                            proof {
                                assert(start.due_leaf(cur as int) && !start.can_file(cur as int));
                            }
                            return Err(e);
                        },
                        Ok(_) => {},
                    }
                } else {
                    proof {
                        assert(self.linked(self.nodes[cur as int].child as int));
                        assert forall|y: int| #[trigger] self.pending(y) implies self.nodes[y].valid
                            == self.at && start.after(y, cur as int) by {
                            Self::lemma_barren(&start, self, cur as int, y);
                        }
                        assert(start.nodes[cur as int].child == self.nodes[cur as int].child);
                    }
                }
                let (next, found, gchain, gtrail) = self.backtrack(
                    cur,
                    Ghost(start),
                    Ghost(chain),
                    Ghost(trail),
                );
                proof {
                    if start.nodes.len() == 1 {
                        assert(cur == 0 && next == 0);
                        assert(here.nodes[0].child == NONE);
                        if found {
                            assert(self.root_tallied(&start, 0, false));
                            assert(self.asked(&start, 0));
                        }
                        assert(!found);
                    }
                }
                if !found {
                    proof {
                        assert forall|y: int| #[trigger] start.due_leaf(y) implies start.can_file(
                            y,
                        ) by {
                            if y != 0 && !self.asked(&start, y) {
                                assert(self.nodes[y] == start.nodes[y]);
                                assert(self.pending(y));
                                Self::lemma_root_order(&start, y);
                            }
                        }
                    }
                    return Ok(());
                }
                cur = next;
                proof {
                    chain = gchain@;
                    trail = gtrail@;
                    lemma_code_floor(trail, w, b);
                }
            }
        }
    }
}

} // verus!
