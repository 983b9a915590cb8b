//! The pyramid puzzle as a search domain: balls in a triangle of cells are
//! swapped with their neighbours until every ball lies below smaller ones.

use crate::beam::{BeamSearch, SearchError};
use crate::clock::Clock;
use crate::domain::{path_legal, replay, Domain, Move, SCORE_LIMIT};
use crate::driver::{first_hit, goal_in_one, some_goal, Config, Outcome};
use crate::tables::{Input, Op};
use vstd::prelude::*;

verus! {

/// What each ball that has come to rest adds to the reward.
pub const ENDED_BONUS: i64 = 1200;

/// The cell number that stands for "no cell".
pub const NO_POS: usize = usize::MAX;


/// How far a state has come: the balls below `n` have come to rest, and ball
/// `n` was last moved away from `prev_pos`.
#[derive(Clone, Copy, Debug, PartialEq, Eq)]
pub struct Progress {
    pub n: usize,
    pub prev_pos: usize,
}

/// The logical contents of a state: the ball in each cell, with a 0 after
/// the last cell, and the cell of each ball.
pub struct Board {
    pub state: Seq<usize>,
    pub pos: Seq<usize>,
}

/// The puzzle state: which ball lies in which cell, and where each ball is.
pub struct State {
    pub(crate) state: Vec<usize>,
    pub(crate) pos: Vec<usize>,
}

/// The two maps of `b` are inverse to each other on `l` cells.
pub open spec fn board_ok(l: int, b: Board) -> bool {
    &&& b.state.len() == l + 1
    &&& b.pos.len() == l
    &&& b.state[l] == 0
    &&& forall|i: int| 0 <= i < l ==> (#[trigger] b.state[i]) < l && b.pos[b.state[i] as int] == i
    &&& forall|k: int| 0 <= k < l ==> (#[trigger] b.pos[k]) < l && b.state[b.pos[k] as int] == k
}

/// The swap `p` names two cells, or starts at `l` and is no swap.
pub open spec fn swap_ok(l: int, p: (usize, usize)) -> bool {
    p.0 == l || (p.0 < l && p.1 < l)
}

/// `b` after the balls in the two cells of `p` have changed places.
pub open spec fn swap_spec(l: int, b: Board, p: (usize, usize)) -> Board {
    if p.0 == l {
        b
    } else {
        let x = b.state[p.0 as int];
        let y = b.state[p.1 as int];
        Board {
            state: b.state.update(p.0 as int, y).update(p.1 as int, x),
            pos: b.pos.update(x as int, b.pos[y as int]).update(y as int, b.pos[x as int]),
        }
    }
}

/// Swapping keeps the maps inverse to each other, and swapping twice gives
/// back what was there.
pub proof fn lemma_swap(l: int, b: Board, p: (usize, usize))
    requires
        board_ok(l, b),
        swap_ok(l, p),
    ensures
        board_ok(l, swap_spec(l, b, p)),
        swap_spec(l, swap_spec(l, b, p), p) == b,
{
    if p.0 != l {
        let c = swap_spec(l, b, p);
        let d = swap_spec(l, c, p);
        let x = b.state[p.0 as int];
        let y = b.state[p.1 as int];
        assert(b.pos[x as int] == p.0);
        assert(b.pos[y as int] == p.1);
        assert forall|i: int| 0 <= i < l implies (#[trigger] c.state[i]) < l && c.pos[c.state[i] as int]
            == i by {
            assert(b.state[i] < l);
        }
        assert forall|k: int| 0 <= k < l implies (#[trigger] c.pos[k]) < l && c.state[c.pos[k] as int]
            == k by {
            assert(b.pos[k] < l);
        }
        assert(d.state =~= b.state);
        assert(d.pos =~= b.pos);
    }
}

/// `op` names one or two swaps in a pyramid of `l` cells.
pub open spec fn op_ok(l: int, op: Op) -> bool {
    &&& op.first.0 < l
    &&& op.first.1 < l
    &&& swap_ok(l, op.second)
}

/// Ball `k` has come to rest in `b`: neither cell above it holds a larger
/// ball.
pub open spec fn isok_spec(env: &Input, b: Board, k: int) -> bool {
    &&& k < env.cells()
    &&& k >= b.state[env.next_to(b.pos[k] as int, 0)]
    &&& k >= b.state[env.next_to(b.pos[k] as int, 1)]
}

/// The sum, over the first `k` cells, of the cell's weight times its ball.
pub open spec fn sum_h(env: &Input, st: Seq<usize>, k: int) -> int
    decreases k,
{
    if k <= 0 {
        0
    } else {
        sum_h(env, st, k - 1) + env.weight(k - 1) * st[k - 1]
    }
}

/// The reward of `b` when the balls below `n` have come to rest: heavy balls
/// low in the pyramid, and a bonus for each ball at rest.
pub open spec fn reward(env: &Input, b: Board, n: int) -> int {
    sum_h(env, b.state, env.cells() as int) + n * ENDED_BONUS
}

/// The fingerprints of the cells of the balls below `n`, combined by
/// exclusive or.
pub open spec fn xor_prefix(env: &Input, pos: Seq<usize>, n: int) -> u64
    decreases n,
{
    if n <= 0 {
        0
    } else {
        xor_prefix(env, pos, n - 1) ^ env.prints()[pos[n - 1] as int]
    }
}

/// The sum is between 0 and what the largest weight and ball allow.
pub proof fn lemma_sum_bound(env: &Input, st: Seq<usize>, k: int)
    requires
        env.wf(),
        0 <= k <= env.cells(),
        st.len() >= env.cells(),
        forall|i: int| 0 <= i < env.cells() ==> (#[trigger] st[i]) < env.cells(),
    ensures
        0 <= sum_h(env, st, k) <= k * 0x4000_0000,
    decreases k,
{
    if k > 0 {
        lemma_sum_bound(env, st, k - 1);
        let h = env.weight(k - 1);
        let s = st[k - 1] as int;
        assert(0 <= h * s <= 0x4000_0000) by (nonlinear_arith)
            requires
                0 <= h <= 1024,
                0 <= s <= 1024 * 1024,
        ;
    }
}

/// Changing the ball of one cell changes the sum by the cell's weight times
/// the change.
pub proof fn lemma_sum_update(env: &Input, st: Seq<usize>, c: int, x: usize, k: int)
    requires
        0 <= c < st.len(),
        0 <= k <= st.len(),
    ensures
        sum_h(env, st.update(c, x), k) == sum_h(env, st, k) + (if c < k {
            env.weight(c) * x - env.weight(c) * st[c]
        } else {
            0
        }),
    decreases k,
{
    if k > 0 {
        lemma_sum_update(env, st, c, x, k - 1);
    }
}

/// The fingerprint of a prefix depends on the cells of its balls only.
pub proof fn lemma_xor_same(env: &Input, p: Seq<usize>, q: Seq<usize>, n: int)
    requires
        0 <= n <= p.len(),
        n <= q.len(),
        forall|k: int| 0 <= k < n ==> p[k] == q[k],
    ensures
        xor_prefix(env, p, n) == xor_prefix(env, q, n),
    decreases n,
{
    if n > 0 {
        lemma_xor_same(env, p, q, n - 1);
    }
}

impl State {
    /// The state is consistent with the tables of `input`.
    pub open(crate) spec fn ok(&self, input: &Input) -> bool {
        &&& input.wf()
        &&& board_ok(input.cells() as int, self.board())
    }

    /// The logical contents.
    pub open(crate) spec fn board(&self) -> Board {
        Board { state: self.state@, pos: self.pos@ }
    }

    /// The state in which every cell holds the ball that `input` gives it.
    pub fn new(input: &Input) -> (r: State)
        requires
            input.wf(),
        ensures
            r.ok(input),
            r.board() == start_board(input),
    {
        let l = input.grid.len();
        let mut state: Vec<usize> = Vec::new();
        let mut pos: Vec<usize> = Vec::new();
        let mut i: usize = 0;
        while i < l
            invariant
                i <= l,
                l == input.grid@.len(),
                l == input.home@.len(),
                state@ =~= input.grid@.subrange(0, i as int),
                pos@ =~= input.home@.subrange(0, i as int),
            decreases l - i,
        {
            state.push(input.grid[i]);
            pos.push(input.home[i]);
            i = i + 1;
        }
        state.push(0);
        proof {
            assert(input.grid@.subrange(0, l as int) =~= input.grid@);
            assert(input.home@.subrange(0, l as int) =~= input.home@);
            assert(state@ =~= input.grid@.push(0));
            assert(pos@ =~= input.home@);
        }
        State { state, pos }
    }

    /// The ball in cell `p`.
    pub fn ball(&self, p: usize) -> (r: usize)
        requires
            p < self.board().state.len(),
        ensures
            r == self.board().state[p as int],
    {
        self.state[p]
    }

    /// The cell of ball `k`.
    pub fn cell(&self, k: usize) -> (r: usize)
        requires
            k < self.board().pos.len(),
        ensures
            r == self.board().pos[k as int],
    {
        self.pos[k]
    }

    /// Exchanges the balls in the two cells of `p`; does nothing if `p`
    /// starts at the number of cells.
    pub fn swap(&mut self, input: &Input, p: (usize, usize))
        requires
            old(self).ok(input),
            swap_ok(input.cells() as int, p),
        ensures
            final(self).ok(input),
            final(self).board() == swap_spec(input.cells() as int, old(self).board(), p),
    {
        let (from, to) = p;
        if from == input.grid.len() {
            return ;
        }
        let x = self.state[from];
        let y = self.state[to];
        proof {
            lemma_swap(input.cells() as int, self.board(), p);
        }
        let px = self.pos[x];
        let py = self.pos[y];
        self.pos[x] = py;
        self.pos[y] = px;
        self.state[from] = y;
        self.state[to] = x;
        proof {
            let c = swap_spec(input.cells() as int, old(self).board(), p);
            assert(self.state@ =~= c.state);
            assert(self.pos@ =~= c.pos);
        }
    }

    /// Whether ball `n` has come to rest.
    pub fn isok(&self, input: &Input, n: usize) -> (r: bool)
        requires
            self.ok(input),
            n <= input.cells(),
        ensures
            r == isok_spec(input, self.board(), n as int),
    {
        if n == input.grid.len() {
            return false;
        }
        let p = self.pos[n];
        let np0 = input.dd[p][0];
        let np1 = input.dd[p][1];
        n >= self.state[np0] && n >= self.state[np1]
    }

    /// The reward of this state when the balls below `n` have come to rest.
    pub fn score(&self, input: &Input, n: usize) -> (r: i64)
        requires
            self.ok(input),
            n <= input.cells(),
        ensures
            r == reward(input, self.board(), n as int),
            0 <= r <= SCORE_LIMIT,
    {
        let l = input.grid.len();
        let mut acc: i64 = 0;
        let mut i: usize = 0;
        while i < l
            invariant
                i <= l,
                l == input.cells(),
                self.ok(input),
                acc == sum_h(input, self.state@, i as int),
                0 <= acc <= i * 0x4000_0000,
            decreases l - i,
        {
            proof {
                lemma_sum_bound(input, self.state@, i as int + 1);
            }
            let h = input.height[i];
            let s = self.state[i] as i64;
            assert(0 <= h * s <= 0x4000_0000) by (nonlinear_arith)
                requires
                    0 <= h <= 1024,
                    0 <= s <= 1024 * 1024,
            ;
            acc = acc + h * s;
            i = i + 1;
        }
        assert(n * ENDED_BONUS <= 1024 * 1024 * 1200) by (nonlinear_arith)
            requires
                0 <= n <= 1024 * 1024,
        ;
        acc + (n as i64) * ENDED_BONUS
    }

    /// The fingerprint of this state when the balls below `n` have come to
    /// rest.
    pub fn hash(&self, input: &Input, n: usize) -> (r: u64)
        requires
            self.ok(input),
            n <= input.cells(),
        ensures
            r == xor_prefix(input, self.board().pos, n as int),
    {
        let mut hash: u64 = 0;
        let mut i: usize = 0;
        while i < n
            invariant
                i <= n <= input.cells(),
                self.ok(input),
                hash == xor_prefix(input, self.pos@, i as int),
            decreases n - i,
        {
            hash = hash ^ input.zob[self.pos[i]];
            i = i + 1;
        }
        hash
    }
}

/// The first ball from `n` on that has not come to rest in `t`; the number
/// of cells if all have.
pub open spec fn reach(env: &Input, t: Board, n: int) -> int
    decreases env.cells() - n,
{
    if n < env.cells() && isok_spec(env, t, n) {
        reach(env, t, n + 1)
    } else {
        n
    }
}

/// What is reported of `op` for a state with contents `s` and progress `p`:
/// the contents after `op`, how many balls have come to rest then, and the
/// score, the fingerprint and the duplicate key that follow from that.
pub open spec fn outcome(env: &Input, s: Board, p: Progress, op: Op) -> Move<Op, Progress> {
    let t = State::step(env, s, op);
    let n = reach(env, t, p.n as int);
    let hash = xor_prefix(env, t.pos, n);
    Move {
        op,
        turns: if op.second.0 == env.cells() {
            1
        } else {
            2
        },
        score: (-reward(env, t, n)) as i64,
        hash,
        progress: Progress {
            n: n as usize,
            prev_pos: if n != p.n {
                NO_POS
            } else {
                s.pos[p.n as int]
            },
        },
        key: if n < env.cells() {
            hash ^ env.prints()[t.pos[n] as int]
        } else {
            hash
        },
    }
}

/// Ball `p.n` may change places with the ball in cell `np`: that ball is
/// larger, and `np` is not the cell that ball `p.n` just came from.
pub open spec fn open_to(s: Board, p: Progress, np: int) -> bool {
    p.n < s.state[np] && np != p.prev_pos
}

/// The direction of the single swap that is tried in place `i`: up-left,
/// up-right, right, left.
pub open spec fn dir_of(i: int) -> int {
    if i == 3 {
        5
    } else {
        i
    }
}

/// The operation that is tried in place `i` of the eight: four single swaps
/// of ball `p.n` with a neighbour, then the four moves of two swaps; `None`
/// where the move is not open.
pub open spec fn tried(env: &Input, s: Board, p: Progress, i: int) -> Option<Op> {
    let l = env.cells() as usize;
    let pos = s.pos[p.n as int];
    if i < 4 {
        let np = env.next_to(pos as int, dir_of(i));
        if open_to(s, p, np) {
            Some(Op { first: (pos, np as usize), second: (l, l) })
        } else {
            None
        }
    } else {
        let h = env.hop(pos as int, i - 4);
        if open_to(s, p, h.0 as int) {
            Some(h.1)
        } else {
            None
        }
    }
}

/// The moves that are offered from the first `i` of the eight places.
pub open spec fn offers(env: &Input, s: Board, p: Progress, i: int) -> Seq<Move<Op, Progress>>
    decreases i,
{
    if i <= 0 {
        Seq::empty()
    } else {
        match tried(env, s, p, i - 1) {
            Some(op) => offers(env, s, p, i - 1).push(outcome(env, s, p, op)),
            None => offers(env, s, p, i - 1),
        }
    }
}

impl State {
    /// Tries `op` out on the state and reports what the state is worth
    /// after it: moves the balls, lets every ball from `progress.n` on that
    /// has come to rest count, takes the fingerprint along, and moves the
    /// balls back. `delta` is the change of the weighted sum that `op`
    /// makes, and `pos` the cell that ball `progress.n` starts from.
    #[verifier::rlimit(60)]
    pub(crate) fn probe(
        &mut self,
        env: &Input,
        progress: &Progress,
        score: i64,
        hash: u64,
        op: Op,
        pos: usize,
        delta: i64,
    ) -> (m: Move<Op, Progress>)
        requires
            old(self).ok(env),
            State::tracks(env, old(self).board(), *progress),
            progress.n < env.cells(),
            score == -reward(env, old(self).board(), progress.n as int),
            hash == xor_prefix(env, old(self).board().pos, progress.n as int),
            op_ok(env.cells() as int, op),
            pos == old(self).board().pos[progress.n as int],
            ({
                let s = old(self).board();
                let t = State::step(env, s, op);
                &&& forall|k: int| 0 <= k < progress.n ==> #[trigger] t.pos[k] == s.pos[k]
                &&& forall|c: int|
                    0 <= c < env.cells() && s.state[c] < progress.n ==> #[trigger] t.state[c]
                        == s.state[c]
                &&& sum_h(env, t.state, env.cells() as int) == sum_h(
                    env,
                    s.state,
                    env.cells() as int,
                ) + delta
            }),
        ensures
            final(self).ok(env),
            final(self).board() == old(self).board(),
            m == outcome(env, old(self).board(), *progress, op),
            m.op == op,
            m.progress.prev_pos == (if m.progress.n != progress.n {
                NO_POS
            } else {
                pos
            }),
            progress.n <= m.progress.n,
            ({
                let s = old(self).board();
                let t = State::step(env, s, op);
                &&& State::legal(env, s, m.op)
                &&& m.turns == State::turns_of(env, m.op)
                &&& State::tracks(env, t, m.progress)
                &&& m.score == State::score_of(env, t, m.progress)
                &&& m.hash == State::hash_of(env, t, m.progress)
                &&& m.key == (if m.progress.n < env.cells() {
                    m.hash ^ env.prints()[t.pos[m.progress.n as int] as int]
                } else {
                    m.hash
                })
                &&& -SCORE_LIMIT <= m.score <= SCORE_LIMIT
            }),
    {
        let l = env.grid.len();
        let ghost s = self.board();
        proof {
            lemma_swap(l as int, s, op.first);
            lemma_swap(l as int, swap_spec(l as int, s, op.first), op.second);
        }
        self.swap(env, op.first);
        self.swap(env, op.second);
        let ghost t = self.board();
        proof {
            assert(t == State::step(env, s, op));
            assert forall|k: int| 0 <= k < progress.n implies isok_spec(env, t, k) by {
                assert(isok_spec(env, s, k));
                assert(t.pos[k] == s.pos[k]);
                let p = s.pos[k] as int;
                let u0 = env.next_to(p, 0);
                let u1 = env.next_to(p, 1);
                assert(env.dd@[p][0] <= l);
                assert(env.dd@[p][1] <= l);
                if u0 < l {
                    assert(t.state[u0] == s.state[u0]);
                }
                if u1 < l {
                    assert(t.state[u1] == s.state[u1]);
                }
            }
            lemma_xor_same(env, s.pos, t.pos, progress.n as int);
            lemma_sum_bound(env, s.state, l as int);
            lemma_sum_bound(env, t.state, l as int);
        }
        let mut n = progress.n;
        let mut h = hash;
        while self.isok(env, n)
            invariant
                progress.n <= n <= l,
                l == env.cells(),
                self.ok(env),
                self.board() == t,
                forall|k: int| 0 <= k < n ==> isok_spec(env, t, k),
                h == xor_prefix(env, t.pos, n as int),
                reach(env, t, progress.n as int) == reach(env, t, n as int),
            decreases l - n,
        {
            h = h ^ env.zob[self.pos[n]];
            n = n + 1;
        }
        let key = if n < l {
            h ^ env.zob[self.pos[n]]
        } else {
            h
        };
        let prev_pos = if n != progress.n {
            NO_POS
        } else {
            pos
        };
        self.swap(env, op.second);
        self.swap(env, op.first);
        proof {
            let u = swap_spec(l as int, s, op.first);
            assert(swap_spec(l as int, t, op.second) == u);
            assert(swap_spec(l as int, u, op.first) == s);
        }
        let turns: usize = if op.second.0 == l {
            1
        } else {
            2
        };
        assert((n - progress.n) * ENDED_BONUS <= 1024 * 1024 * 1200) by (nonlinear_arith)
            requires
                0 <= n - progress.n <= 1024 * 1024,
        ;
        assert(n * ENDED_BONUS == progress.n * ENDED_BONUS + (n - progress.n) * ENDED_BONUS)
            by (nonlinear_arith);
        assert(0 <= progress.n * ENDED_BONUS <= 1024 * 1024 * 1200) by (nonlinear_arith)
            requires
                0 <= progress.n <= 1024 * 1024,
        ;
        let r0: i64 = -score;
        let r1: i64 = r0 + delta + ENDED_BONUS * ((n - progress.n) as i64);
        Move { op, turns, score: -r1, hash: h, progress: Progress { n, prev_pos }, key }
    }
}

impl Domain for State {
    type Env = Input;

    type Op = Op;

    type Progress = Progress;

    type V = Board;

    open spec fn view_of(&self) -> Board {
        self.board()
    }

    open spec fn wf(&self, env: &Input) -> bool {
        self.ok(env)
    }

    open spec fn inv(env: &Input, s: Board) -> bool {
        env.wf() && board_ok(env.cells() as int, s)
    }

    open spec fn legal(env: &Input, s: Board, op: Op) -> bool {
        op_ok(env.cells() as int, op)
    }

    open spec fn step(env: &Input, s: Board, op: Op) -> Board {
        swap_spec(env.cells() as int, swap_spec(env.cells() as int, s, op.first), op.second)
    }

    open spec fn unstep(env: &Input, s: Board, op: Op) -> Board {
        swap_spec(env.cells() as int, swap_spec(env.cells() as int, s, op.second), op.first)
    }

    open spec fn undoable(env: &Input, s: Board, op: Op) -> bool {
        op_ok(env.cells() as int, op)
    }

    open spec fn turns_of(env: &Input, op: Op) -> nat {
        if op.second.0 == env.cells() {
            1
        } else {
            2
        }
    }

    open spec fn tracks(env: &Input, s: Board, p: Progress) -> bool {
        &&& p.n <= env.cells()
        &&& forall|k: int| 0 <= k < p.n ==> isok_spec(env, s, k)
    }

    open spec fn goal(env: &Input, p: Progress) -> bool {
        p.n == env.cells()
    }

    open spec fn score_of(env: &Input, s: Board, p: Progress) -> int {
        -reward(env, s, p.n as int)
    }

    open spec fn hash_of(env: &Input, s: Board, p: Progress) -> u64 {
        xor_prefix(env, s.pos, p.n as int)
    }

    open spec fn moves(env: &Input, s: Board, p: Progress) -> Seq<Move<Op, Progress>> {
        offers(env, s, p, 8)
    }

    open spec fn start(env: &Input, s: Board) -> Progress {
        Progress { n: reach(env, s, 0) as usize, prev_pos: NO_POS }
    }

    proof fn wf_inv(&self, env: &Input) {
    }

    proof fn step_unstep(env: &Input, s: Board, op: Op) {
        let l = env.cells() as int;
        lemma_swap(l, s, op.first);
        let u = swap_spec(l, s, op.first);
        lemma_swap(l, u, op.second);
    }

    fn apply(&mut self, env: &Input, op: &Op) {
        proof {
            lemma_swap(env.cells() as int, self.board(), op.first);
        }
        self.swap(env, op.first);
        self.swap(env, op.second);
    }

    fn revert(&mut self, env: &Input, op: &Op) {
        proof {
            lemma_swap(env.cells() as int, self.board(), op.second);
        }
        self.swap(env, op.second);
        self.swap(env, op.first);
    }

    fn survey(&self, env: &Input) -> (r: (Progress, i64, u64)) {
        let l = env.grid.len();
        let mut n: usize = 0;
        while self.isok(env, n)
            invariant
                n <= l,
                l == env.cells(),
                self.ok(env),
                forall|k: int| 0 <= k < n ==> isok_spec(env, self.board(), k),
                reach(env, self.board(), 0) == reach(env, self.board(), n as int),
            decreases l - n,
        {
            n = n + 1;
        }
        let score = self.score(env, n);
        let hash = self.hash(env, n);
        (Progress { n, prev_pos: NO_POS }, -score, hash)
    }

    fn is_goal(env: &Input, p: &Progress) -> (b: bool) {
        p.n == env.grid.len()
    }

    #[verifier::rlimit(60)]

    fn append_cands(
        &mut self,
        env: &Input,
        progress: &Progress,
        score: i64,
        hash: u64,
        out: &mut Vec<Move<Op, Progress>>,
    ) {
        let l = env.grid.len();
        let n = progress.n;
        let pos = self.pos[n];
        let ghost s = self.board();
        let ghost before = out@;
        let dirs: [usize; 4] = [0, 1, 2, 5];
        let mut a: usize = 0;
        while a < 4
            invariant
                a <= 4,
                l == env.cells(),
                n == progress.n,
                n < l,
                self.ok(env),
                self.board() == s,
                pos == s.pos[n as int],
                State::tracks(env, s, *progress),
                score == -reward(env, s, n as int),
                hash == xor_prefix(env, s.pos, n as int),
                dirs[0] == 0 && dirs[1] == 1 && dirs[2] == 2 && dirs[3] == 5,
                out@.len() >= before.len(),
                out@.subrange(0, before.len() as int) == before,
                forall|k: int| before.len() <= k < out@.len() ==> given(env, s, #[trigger] out@[k]),
                out@ =~= before + offers(env, s, *progress, a as int),
            decreases 4 - a,
        {
            let np = env.dd[pos][dirs[a]];
            proof {
                assert(dirs[a as int] == dir_of(a as int));
            }
            if !(n >= self.state[np] || np == progress.prev_pos) {
                let nn = self.state[np];
                let hp = env.height[pos];
                let hn = env.height[np];
                let ni = n as i64;
                let nni = nn as i64;
                assert(0 <= hp * ni <= 0x4000_0000 && 0 <= hn * nni <= 0x4000_0000 && 0 <= hp * nni
                    <= 0x4000_0000 && 0 <= hn * ni <= 0x4000_0000) by (nonlinear_arith)
                    requires
                        0 <= hp <= 1024,
                        0 <= hn <= 1024,
                        0 <= ni <= 1024 * 1024,
                        0 <= nni <= 1024 * 1024,
                ;
                let was = hp * ni + hn * nni;
                let now = hp * nni + hn * ni;
                let op = Op { first: (pos, np), second: (l, l) };
                proof {
                    let s1 = s.state.update(pos as int, nn);
                    lemma_sum_update(env, s.state, pos as int, nn, l as int);
                    lemma_sum_update(env, s1, np as int, n, l as int);
                }
                let ghost grown = out@;
                let m = self.probe(env, progress, score, hash, op, pos, now - was);
                out.push(m);
                proof {
                    assert(out@.subrange(0, before.len() as int) =~= grown.subrange(
                        0,
                        before.len() as int,
                    ));
                }
            }
            a = a + 1;
        }
        let mut j: usize = 0;
        while j < 4
            invariant
                j <= 4,
                l == env.cells(),
                n == progress.n,
                n < l,
                self.ok(env),
                self.board() == s,
                pos == s.pos[n as int],
                State::tracks(env, s, *progress),
                score == -reward(env, s, n as int),
                hash == xor_prefix(env, s.pos, n as int),
                out@.len() >= before.len(),
                out@.subrange(0, before.len() as int) == before,
                forall|k: int| before.len() <= k < out@.len() ==> given(env, s, #[trigger] out@[k]),
                out@ =~= before + offers(env, s, *progress, 4 + j as int),
            decreases 4 - j,
        {
            let (np, op) = env.dd2[pos][j];
            proof {
                assert(env.dd2@[pos as int][j as int] == env.hop_spec(pos as int, j as int));
                assert(env.dd@[pos as int][j as int % 2] <= l);
            }
            if !(n >= self.state[np] || np == progress.prev_pos) {
                let mp = op.first.1;
                proof {
                    assert(mp == env.dd@[pos as int][j as int % 2]);
                    assert(np == env.dd@[mp as int][j as int / 2]);
                    assert(env.dd@[mp as int][j as int / 2] != mp);
                    assert(env.dd@[pos as int][j as int % 2] != pos);
                }
                let nn = self.state[np];
                let mm = self.state[mp];
                proof {
                    if mm < n {
                        assert(isok_spec(env, s, mm as int));
                        assert(s.pos[mm as int] == mp);
                    }
                    assert(s.pos[n as int] == pos);
                }
                let hp = env.height[pos];
                let hm = env.height[mp];
                let hn = env.height[np];
                let ni = n as i64;
                let nni = nn as i64;
                let mmi = mm as i64;
                assert(0 <= hp * ni <= 0x4000_0000 && 0 <= hn * nni <= 0x4000_0000 && 0 <= hp * nni
                    <= 0x4000_0000 && 0 <= hm * ni <= 0x4000_0000 && 0 <= hm * mmi <= 0x4000_0000
                    && 0 <= hn * mmi <= 0x4000_0000) by (nonlinear_arith)
                    requires
                        0 <= hp <= 1024,
                        0 <= hn <= 1024,
                        0 <= hm <= 1024,
                        0 <= ni <= 1024 * 1024,
                        0 <= nni <= 1024 * 1024,
                        0 <= mmi <= 1024 * 1024,
                ;
                let was = hp * ni + hm * mmi + hn * nni;
                let now = hp * nni + hm * ni + hn * mmi;
                proof {
                    let a1 = s.state.update(np as int, mm);
                    let a2 = a1.update(mp as int, nn);
                    let a3 = a2.update(mp as int, n);
                    lemma_sum_update(env, s.state, np as int, mm, l as int);
                    lemma_sum_update(env, a1, mp as int, nn, l as int);
                    lemma_sum_update(env, a2, mp as int, n, l as int);
                    lemma_sum_update(env, a3, pos as int, nn, l as int);
                    lemma_swap(l as int, s, op.first);
                }
                let ghost grown = out@;
                let m = self.probe(env, progress, score, hash, op, pos, now - was);
                out.push(m);
                proof {
                    assert(out@.subrange(0, before.len() as int) =~= grown.subrange(
                        0,
                        before.len() as int,
                    ));
                }
            }
            j = j + 1;
        }
    }
}

/// `m` is a legal continuation of `s`, and what it reports of the state it
/// leads to is what the puzzle's own functions say of that state.
pub open spec fn given(env: &Input, s: Board, m: Move<Op, Progress>) -> bool {
    let t = State::step(env, s, m.op);
    &&& State::legal(env, s, m.op)
    &&& m.turns == State::turns_of(env, m.op)
    &&& State::tracks(env, t, m.progress)
    &&& m.score == State::score_of(env, t, m.progress)
    &&& m.hash == State::hash_of(env, t, m.progress)
    &&& -SCORE_LIMIT <= m.score <= SCORE_LIMIT
}

/// The arrangement that `env` starts from.
pub open spec fn start_board(env: &Input) -> Board {
    Board { state: env.balls().push(0), pos: env.homes() }
}

/// The operation that the root of a search tree holds: it names no cell.
pub fn root_op() -> (r: Op)
    ensures
        r == (Op { first: (NO_POS, NO_POS), second: (NO_POS, NO_POS) }),
{
    Op { first: (NO_POS, NO_POS), second: (NO_POS, NO_POS) }
}

/// The swaps of `path`, one after the other.
pub open spec fn flat(l: int, path: Seq<Op>) -> Seq<(usize, usize)>
    decreases path.len(),
{
    if path.len() == 0 {
        Seq::empty()
    } else {
        let head = flat(l, path.drop_last()).push(path.last().first);
        if path.last().second.0 == l {
            head
        } else {
            head.push(path.last().second)
        }
    }
}

/// `b` after the swaps of `moves`, in order.
pub open spec fn swaps(l: int, b: Board, moves: Seq<(usize, usize)>) -> Board
    decreases moves.len(),
{
    if moves.len() == 0 {
        b
    } else {
        swap_spec(l, swaps(l, b, moves.drop_last()), moves.last())
    }
}

/// Every swap of `moves` names two cells.
pub open spec fn all_cells(l: int, moves: Seq<(usize, usize)>) -> bool {
    forall|i: int| 0 <= i < moves.len() ==> (#[trigger] moves[i]).0 < l && moves[i].1 < l
}

/// Every ball of `b` has come to rest.
pub open spec fn at_rest(env: &Input, b: Board) -> bool {
    forall|k: int| 0 <= k < env.cells() ==> isok_spec(env, b, k)
}

/// Doing the swaps of a legal path one by one gives what replaying the path
/// gives, and every one of them names two cells.
pub proof fn lemma_flat(env: &Input, b: Board, path: Seq<Op>)
    requires
        path_legal::<State>(env, b, path),
    ensures
        swaps(env.cells() as int, b, flat(env.cells() as int, path)) == replay::<State>(
            env,
            b,
            path,
        ),
        all_cells(env.cells() as int, flat(env.cells() as int, path)),
    decreases path.len(),
{
    let l = env.cells() as int;
    if path.len() > 0 {
        let stem = path.drop_last();
        let op = path.last();
        lemma_flat(env, b, stem);
        let r = replay::<State>(env, b, stem);
        let head = flat(l, stem).push(op.first);
        assert(head.drop_last() =~= flat(l, stem));
        assert(head.last() == op.first);
        assert(swaps(l, b, head) == swap_spec(l, r, op.first));
        assert(replay::<State>(env, b, path) == swap_spec(l, swap_spec(l, r, op.first), op.second));
        if op.second.0 != l {
            let full = head.push(op.second);
            assert(full.drop_last() =~= head);
            assert(full.last() == op.second);
            assert(swaps(l, b, full) == swap_spec(l, swaps(l, b, head), op.second));
            assert(flat(l, path) == full);
        } else {
            assert(flat(l, path) == head);
        }
    }
}

/// The swaps of `path`, one after the other.
pub fn flatten(input: &Input, path: &Vec<Op>) -> (r: Vec<(usize, usize)>)
    ensures
        r@ == flat(input.cells() as int, path@),
{
    let l = input.grid.len();
    let mut r: Vec<(usize, usize)> = Vec::new();
    let mut i: usize = 0;
    while i < path.len()
        invariant
            i <= path.len(),
            l == input.cells(),
            r@ == flat(l as int, path@.subrange(0, i as int)),
        decreases path.len() - i,
    {
        let op = path[i];
        proof {
            assert(path@.subrange(0, i as int + 1).drop_last() =~= path@.subrange(0, i as int));
        }
        r.push(op.first);
        if op.second.0 != l {
            r.push(op.second);
        }
        i = i + 1;
    }
    proof {
        assert(path@.subrange(0, path@.len() as int) =~= path@);
    }
    r
}

/// Where every ball has come to rest, counting the balls at rest from any
/// ball on comes to the number of cells.
pub proof fn lemma_reach_all(env: &Input, b: Board, n: int)
    requires
        at_rest(env, b),
        0 <= n <= env.cells(),
    ensures
        reach(env, b, n) == env.cells(),
    decreases env.cells() - n,
{
    if n < env.cells() {
        assert(isok_spec(env, b, n));
        lemma_reach_all(env, b, n + 1);
    }
}

/// Where the start is not at the goal, some ball is not at rest in the
/// arrangement that the tables start from.
pub proof fn lemma_start_unrest(env: &Input)
    requires
        env.wf(),
        !<State as Domain>::goal(env, <State as Domain>::start(env, start_board(env))),
    ensures
        !at_rest(env, start_board(env)),
{
    if at_rest(env, start_board(env)) {
        lemma_reach_all(env, start_board(env), 0);
    }
}

/// The swaps of the first move from the start that is a single swap and
/// brings every ball to rest.
pub open spec fn answer_in_one(env: &Input) -> Seq<(usize, usize)> {
    let ms = <State as Domain>::moves(
        env,
        start_board(env),
        <State as Domain>::start(env, start_board(env)),
    );
    flat(env.cells() as int, seq![ms[first_hit::<State>(env, ms, ms.len()) as int].op])
}

/// The shorter of the answer `best` that was kept so far, if there is one,
/// and the new answer `moves`: the one kept so far where they are equally
/// long.
pub open spec fn shorter(best: Option<Seq<(usize, usize)>>, moves: Seq<(usize, usize)>) -> Seq<
    (usize, usize),
> {
    match best {
        Some(b) => if b.len() <= moves.len() {
            b
        } else {
            moves
        },
        None => moves,
    }
}

/// Keeps the shorter of the answer that was kept so far and a new one, and
/// the one kept so far where they are equally long.
pub fn keep_shorter(best: Option<Vec<(usize, usize)>>, moves: Vec<(usize, usize)>) -> (r: Vec<
    (usize, usize),
>)
    ensures
        r@ == shorter(
            match best {
                Some(b) => Some(b@),
                None => None,
            },
            moves@,
        ),
{
    match best {
        Some(b) => {
            if b.len() <= moves.len() {
                b
            } else {
                moves
            }
        },
        None => moves,
    }
}

/// Runs up to `attempts` searches, each from the arrangement that the
/// tables start from, and keeps the answer with the fewest swaps, the
/// earliest among equals, as `keep_shorter` says. Stops at the first search
/// that finds no answer, and at an answer without swaps. Returns the swaps
/// of the answer kept, or `None` if no search found one. Without attempts
/// there is no answer; where every ball is at rest at the start, the first
/// search finds the answer without swaps; where one swap from the start
/// brings every ball to rest, the answer is the first such swap among the
/// moves from the start, whatever the clock says. Fails when a search
/// fails, which leaves the engine as that search left it.
#[verifier::rlimit(60)]
pub fn solve(solver: &mut BeamSearch<State>, cfg: &Config, clock: &Clock, attempts: usize) -> (r:
    Result<Option<Vec<(usize, usize)>>, SearchError>)
    requires
        old(solver).sized(),
        old(solver).tables().wf(),
        cfg.ok(),
    ensures
        final(solver).sized(),
        final(solver).tables() == old(solver).tables(),
        r matches Ok(Some(best)) ==> {
            let env = old(solver).tables();
            let l = env.cells() as int;
            &&& all_cells(l, best@)
            &&& at_rest(env, swaps(l, start_board(env), best@))
        },
        attempts == 0 ==> r matches Ok(None),
        attempts > 0 && at_rest(old(solver).tables(), start_board(old(solver).tables())) ==> (r
            matches Ok(Some(best)) && best@.len() == 0),
        attempts > 0 && goal_in_one::<State>(
            old(solver).tables(),
            start_board(old(solver).tables()),
            old(solver).buckets().len() as int,
            cfg,
        ) ==> (r matches Ok(Some(best)) && best@.len() >= 1 && best@ == answer_in_one(
            old(solver).tables(),
        )),
        r matches Err(SearchError::ResourceExhausted) ==> attempts > 0 && (final(solver).full()
            || final(solver).stuck()),
        r matches Err(SearchError::TreeCollapsed) ==> attempts > 0 && final(solver).bare(),
{
    let mut best: Option<Vec<(usize, usize)>> = None;
    let mut iter: usize = 0;
    while iter < attempts
        invariant
            iter <= attempts,
            solver.sized(),
            solver.tables() == old(solver).tables(),
            solver.tables().wf(),
            cfg.ok(),
            best matches Some(b) ==> {
                let env = solver.tables();
                let l = env.cells() as int;
                &&& all_cells(l, b@)
                &&& at_rest(env, swaps(l, start_board(env), b@))
            },
            iter == 0 ==> best is None,
            at_rest(solver.tables(), start_board(solver.tables())) ==> iter == 0,
            solver.buckets().len() == old(solver).buckets().len(),
            iter > 0 && goal_in_one::<State>(
                solver.tables(),
                start_board(solver.tables()),
                solver.buckets().len() as int,
                cfg,
            ) ==> (best matches Some(b) && b@.len() >= 1 && b@ == answer_in_one(solver.tables())),
        decreases attempts - iter,
    {
        let state = State::new(solver.env());
        solver.reset(state, root_op());
        let ghost env = solver.tables();
        proof {
            if at_rest(env, start_board(env)) {
                lemma_reach_all(env, start_board(env), 0);
            }
            if goal_in_one::<State>(env, start_board(env), solver.buckets().len() as int, cfg) {
                solver.lemma_goal_in_one(cfg);
                assert(solver.due_next().len() == 0);
                assert(!some_goal::<State>(env, solver.due_next()));
            }
        }
        match solver.solve(cfg, clock) {
            Err(e) => {
                return Err(e);
            },
            Ok(Outcome::Found(a)) => {
                proof {
                    lemma_flat(env, start_board(env), a.path@);
                }
                let moves = flatten(solver.env(), &a.path);
                proof {
                    if goal_in_one::<State>(
                        env,
                        start_board(env),
                        solver.buckets().len() as int,
                        cfg,
                    ) {
                        lemma_start_unrest(env);
                    }
                }
                if moves.len() == 0 {
                    return Ok(Some(moves));
                }
                let ghost had = best;
                best = Some(keep_shorter(best, moves));
                proof {
                    let kept = best->Some_0@;
                    assert(kept == moves@ || (had matches Some(b) && kept == b@));
                }
            },
            Ok(_) => {
                return Ok(best);
            },
        }
        iter = iter + 1;
    }
    Ok(best)
}

} // verus!
