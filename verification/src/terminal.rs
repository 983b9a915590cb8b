//! The container terminal: a square yard on which cranes move containers
//! from the first column, where they come in, to the last, where they
//! leave. Each turn the containers that stand in the last column leave, and
//! new ones come in where the first column is free.

use crate::crane::{cells_ok, cranes_ok, dx_spec, dy_spec, flags_ok, layer, Crane, Input, MAX_SIDE};
use crate::ops::{code, code_of, reverse_op, reverse_spec, OP_NUM, USING_CRANE};
use vstd::prelude::*;

verus! {

/// Largest number of turns a terminal keeps a history for.
pub const TURN: usize = 1000;

/// The state of a terminal.
pub struct Terminal {
    pub h: usize,
    pub w: usize,
    pub score: i64,
    pub turn: usize,
    pub hash: u64,
    /// The containers that come in at each row, in order.
    pub conts: Vec<Vec<i64>>,
    /// For each row, the container that is to leave there next.
    pub out_cont_idx: Vec<usize>,
    /// For each row, how many of its containers have come in.
    pub incoming_cont_idx: Vec<usize>,
    /// For each cell, the container on the ground and the one held above it.
    pub grid_cont: Vec<Vec<Vec<i64>>>,
    /// For each cell, the crane that stands there.
    pub grid_crane: Vec<Vec<isize>>,
    pub cranes: Vec<Crane>,
    /// For each cell and layer, whether the container there is held.
    pub cont_suspended: Vec<Vec<Vec<bool>>>,
    /// For each turn, the containers that left in it, with their rows.
    pub out_cont_turn: Vec<Vec<(usize, i64)>>,
    /// For each turn, the rows at which a container came in.
    pub incoming_cont_turn: Vec<Vec<usize>>,
}

impl Terminal {
    /// The grids have the size of the yard, the containers have numbers
    /// below the number of cells, and there is a history for every turn.
    pub open spec fn ok(&self) -> bool {
        &&& 1 <= self.h <= MAX_SIDE
        &&& self.w == self.h
        &&& self.turn <= TURN
        &&& self.conts@.len() == self.h
        &&& forall|i: int| 0 <= i < self.h ==> (#[trigger] self.conts@[i])@.len() == self.w
        &&& forall|i: int, j: int|
            0 <= i < self.h && 0 <= j < self.w ==> 0 <= (#[trigger] self.conts@[i]@[j]) < self.h
                * self.w
        &&& self.out_cont_idx@.len() == self.h
        &&& forall|i: int| 0 <= i < self.h ==> (#[trigger] self.out_cont_idx@[i]) <= 0x7fff_ffff
        &&& self.incoming_cont_idx@.len() == self.h
        &&& forall|i: int| 0 <= i < self.h ==> (#[trigger] self.incoming_cont_idx@[i]) <= self.w
        &&& cells_ok(self.grid_cont@, self.h as int, self.w as int)
        &&& forall|i: int, j: int, k: int|
            0 <= i < self.h && 0 <= j < self.w && 0 <= k < 2 ==> (
            #[trigger] self.grid_cont@[i]@[j]@[k]) < self.h * self.w
        &&& cranes_ok(self.grid_crane@, self.h as int, self.w as int)
        &&& flags_ok(self.cont_suspended@, self.h as int, self.w as int)
        &&& self.out_cont_turn@.len() == TURN + 1
        &&& self.incoming_cont_turn@.len() == TURN + 1
    }

    /// Row `i` takes a container in: its first cell is free on both layers,
    /// and not all of its containers have come in.
    pub open spec fn takes_in(&self, i: int) -> bool {
        &&& self.grid_cont@[i]@[0]@[0] == -1
        &&& self.grid_cont@[i]@[0]@[1] == -1
        &&& self.incoming_cont_idx@[i] < self.w
    }

    /// The rows among the first `n` that take a container in, in order.
    pub open spec fn rows_in(&self, n: int) -> Seq<usize>
        decreases n,
    {
        if n <= 0 {
            Seq::empty()
        } else if self.takes_in(n - 1) {
            self.rows_in(n - 1).push((n - 1) as usize)
        } else {
            self.rows_in(n - 1)
        }
    }

    /// Row `i` lets a container out: one stands on the ground of its last
    /// cell and is not held.
    pub open spec fn lets_out(&self, i: int) -> bool {
        &&& self.grid_cont@[i]@[self.w - 1]@[0] != -1
        &&& !self.cont_suspended@[i]@[self.w - 1]@[0]
    }

    /// The containers that leave from the first `n` rows, each with its row,
    /// in order.
    pub open spec fn rows_out(&self, n: int) -> Seq<(usize, i64)>
        decreases n,
    {
        if n <= 0 {
            Seq::empty()
        } else if self.lets_out(n - 1) {
            self.rows_out(n - 1).push(((n - 1) as usize, self.grid_cont@[n - 1]@[self.w - 1]@[0]))
        } else {
            self.rows_out(n - 1)
        }
    }

    /// `new` is this terminal but for the grid of containers, the counts of
    /// containers that have come in and gone out, and the histories.
    pub open spec fn same_yard(&self, new: &Self) -> bool {
        &&& new.h == self.h
        &&& new.w == self.w
        &&& new.score == self.score
        &&& new.turn == self.turn
        &&& new.hash == self.hash
        &&& new.conts == self.conts
        &&& new.grid_crane == self.grid_crane
        &&& new.cranes == self.cranes
        &&& new.cont_suspended == self.cont_suspended
    }

    /// `new` is this terminal, in order, after containers came in where the first column was free.
    pub open spec fn let_in(&self, new: &Self) -> bool {
        &&& new.ok()
        &&& self.same_yard(new)
        &&& new.out_cont_idx == self.out_cont_idx
        &&& new.out_cont_turn == self.out_cont_turn
        &&& new.incoming_cont_turn@.len() == self.incoming_cont_turn@.len()
        &&& new.incoming_cont_turn@[self.turn as int]@
            == self.incoming_cont_turn@[self.turn as int]@ + self.rows_in(self.h as int)
        &&& forall|t: int|
                0 <= t <= TURN && t != self.turn ==> #[trigger] new.incoming_cont_turn@[t]
                    == self.incoming_cont_turn@[t]
        &&& forall|i: int|
                0 <= i < self.h ==> #[trigger] new.incoming_cont_idx@[i]
                    == self.incoming_cont_idx@[i] + (if self.takes_in(i) {
                    1int
                } else {
                    0int
                })
        &&& forall|i: int, j: int, k: int|
                0 <= i < self.h && 0 <= j < self.w && 0 <= k < 2
                    ==> (#[trigger] new.grid_cont@[i]@[j]@[k]) == (if j == 0 && k == 0
                    && self.takes_in(i) {
                    self.conts@[i]@[self.incoming_cont_idx@[i] as int]
                } else {
                    self.grid_cont@[i]@[j]@[k]
                })
    }

    /// Lets a container in at every row whose first cell is free: the next
    /// container of the row is put on the ground there, and the row is
    /// noted in the history of the turn.
    #[verifier::rlimit(60)]
    pub fn prepare_cont(&mut self)
        requires
            old(self).ok(),
        ensures
            final(self).ok(),
            old(self).let_in(final(self)),
    {
        let mut i: usize = 0;
        while i < self.h
            invariant
                i <= self.h,
                self.ok(),
                old(self).ok(),
                old(self).same_yard(self),
                self.out_cont_idx == old(self).out_cont_idx,
                self.out_cont_turn == old(self).out_cont_turn,
                self.incoming_cont_turn@.len() == old(self).incoming_cont_turn@.len(),
                self.incoming_cont_turn@[self.turn as int]@
                    == old(self).incoming_cont_turn@[self.turn as int]@
                    + old(self).rows_in(i as int),
                forall|t: int|
                    0 <= t <= TURN && t != self.turn ==> #[trigger] self.incoming_cont_turn@[t]
                        == old(self).incoming_cont_turn@[t],
                forall|r: int|
                    0 <= r < self.h ==> #[trigger] self.incoming_cont_idx@[r]
                        == old(self).incoming_cont_idx@[r] + (if r < i && old(self).takes_in(r) {
                        1int
                    } else {
                        0int
                    }),
                forall|r: int, j: int, k: int|
                    0 <= r < self.h && 0 <= j < self.w && 0 <= k < 2 ==> (
                    #[trigger] self.grid_cont@[r]@[j]@[k]) == (if j == 0 && k == 0 && r < i
                        && old(self).takes_in(r) {
                        old(self).conts@[r]@[old(self).incoming_cont_idx@[r] as int]
                    } else {
                        old(self).grid_cont@[r]@[j]@[k]
                    }),
            decreases self.h - i,
        {
            if self.grid_cont[i][0][0] == -1 && self.grid_cont[i][0][1] == -1
                && self.incoming_cont_idx[i] < self.w {
                let c = self.conts[i][self.incoming_cont_idx[i]];
                proof {
                    assert(self.h * self.w <= 64) by (nonlinear_arith)
                        requires
                            1 <= self.h <= 8,
                            self.w == self.h,
                    ;
                }
                self.grid_cont[i][0][0] = c;
                let t = self.turn;
                self.incoming_cont_turn[t].push(i);
                self.incoming_cont_idx[i] = self.incoming_cont_idx[i] + 1;
            }
            i = i + 1;
        }
    }

    /// `new` is this terminal after the containers that stood free in the last column left.
    pub open spec fn let_out(&self, new: &Self) -> bool {
        &&& new.ok()
        &&& self.same_yard(new)
        &&& new.incoming_cont_idx == self.incoming_cont_idx
        &&& new.incoming_cont_turn == self.incoming_cont_turn
        &&& new.out_cont_turn@.len() == self.out_cont_turn@.len()
        &&& new.out_cont_turn@[self.turn as int]@ == self.out_cont_turn@[self.turn as int]@
            + self.rows_out(self.h as int)
        &&& forall|t: int|
                0 <= t <= TURN && t != self.turn ==> #[trigger] new.out_cont_turn@[t]
                    == self.out_cont_turn@[t]
        &&& forall|i: int|
                0 <= i < self.h ==> #[trigger] new.out_cont_idx@[i] == self.out_cont_idx@[i]
                    + (if self.lets_out(i) {
                    1int
                } else {
                    0int
                })
        &&& forall|i: int, j: int, k: int|
                0 <= i < self.h && 0 <= j < self.w && 0 <= k < 2
                    ==> (#[trigger] new.grid_cont@[i]@[j]@[k]) == (if j == self.w - 1 && k == 0
                    && self.lets_out(i) {
                    -1i64
                } else {
                    self.grid_cont@[i]@[j]@[k]
                })
    }

    /// Lets the container out that stands, not held, on the ground of the
    /// last cell of a row, at every row: it is noted in the history of the
    /// turn with its row, the row expects its next container, and the cell
    /// is free.
    #[verifier::rlimit(60)]
    pub fn carry_out_cont(&mut self)
        requires
            old(self).ok(),
            forall|i: int| 0 <= i < old(self).h
                ==> (#[trigger] old(self).out_cont_idx@[i]) < 0x7fff_ffff,
        ensures
            final(self).ok(),
            old(self).let_out(final(self)),
    {
        let mut i: usize = 0;
        while i < self.h
            invariant
                i <= self.h,
                self.ok(),
                old(self).ok(),
                old(self).same_yard(self),
                self.incoming_cont_idx == old(self).incoming_cont_idx,
                self.incoming_cont_turn == old(self).incoming_cont_turn,
                self.out_cont_turn@.len() == old(self).out_cont_turn@.len(),
                self.out_cont_turn@[self.turn as int]@ == old(self).out_cont_turn@[self.turn as int]@
                    + old(self).rows_out(i as int),
                forall|t: int|
                    0 <= t <= TURN && t != self.turn ==> #[trigger] self.out_cont_turn@[t]
                        == old(self).out_cont_turn@[t],
                forall|r: int|
                    0 <= r < self.h ==> (#[trigger] old(self).out_cont_idx@[r]) < 0x7fff_ffff,
                forall|r: int|
                    0 <= r < self.h ==> #[trigger] self.out_cont_idx@[r]
                        == old(self).out_cont_idx@[r] + (if r < i && old(self).lets_out(r) {
                        1int
                    } else {
                        0int
                    }),
                forall|r: int, j: int, k: int|
                    0 <= r < self.h && 0 <= j < self.w && 0 <= k < 2 ==> (
                    #[trigger] self.grid_cont@[r]@[j]@[k]) == (if j == self.w - 1 && k == 0 && r
                        < i && old(self).lets_out(r) {
                        -1i64
                    } else {
                        old(self).grid_cont@[r]@[j]@[k]
                    }),
            decreases self.h - i,
        {
            let last = self.w - 1;
            if self.grid_cont[i][last][0] != -1 && !self.cont_suspended[i][last][0] {
                let c = self.grid_cont[i][last][0];
                let t = self.turn;
                self.out_cont_turn[t].push((i, c));
                self.out_cont_idx[i] = self.out_cont_idx[i] + 1;
                self.grid_cont[i][last][0] = -1;
            }
            i = i + 1;
        }
    }
}

/// Row `i` is among the first `n` entries of the history `outs`.
pub open spec fn noted(outs: Seq<(usize, i64)>, n: int, i: int) -> bool {
    exists|k: int| 0 <= k < n && (#[trigger] outs[k]).0 == i
}

/// Ten to the power `k`.
pub open spec fn pow10(k: nat) -> int
    decreases k,
{
    if k == 0 {
        1
    } else {
        10 * pow10((k - 1) as nat)
    }
}

/// The powers of ten up to the fifteenth.
pub proof fn lemma_pow10(k: nat)
    requires
        k <= 15,
    ensures
        1 <= pow10(k) <= 1_000_000_000_000_000,
        k <= 14 ==> pow10(k) <= 100_000_000_000_000,
    decreases k,
{
    if k > 0 {
        lemma_pow10((k - 1) as nat);
        lemma_pow10_step((k - 1) as nat);
    }
}

/// Each power of ten up to the fifteenth is below the next.
pub proof fn lemma_pow10_step(k: nat)
    requires
        k <= 14,
    ensures
        pow10(k) * 10 == pow10(k + 1),
        k == 0 ==> pow10(k) == 1,
        k == 1 ==> pow10(k) == 10,
        k == 2 ==> pow10(k) == 100,
        k == 3 ==> pow10(k) == 1_000,
        k == 4 ==> pow10(k) == 10_000,
        k == 5 ==> pow10(k) == 100_000,
        k == 6 ==> pow10(k) == 1_000_000,
        k == 7 ==> pow10(k) == 10_000_000,
        k == 8 ==> pow10(k) == 100_000_000,
        k == 9 ==> pow10(k) == 1_000_000_000,
        k == 10 ==> pow10(k) == 10_000_000_000,
        k == 11 ==> pow10(k) == 100_000_000_000,
        k == 12 ==> pow10(k) == 1_000_000_000_000,
        k == 13 ==> pow10(k) == 10_000_000_000_000,
        k == 14 ==> pow10(k) == 100_000_000_000_000,
    decreases k,
{
    if k > 0 {
        lemma_pow10_step((k - 1) as nat);
    }
}

/// Ten to the power `k`.
pub fn ten_to(k: u32) -> (r: i64)
    requires
        k <= 15,
    ensures
        r == pow10(k as nat),
        1 <= r <= 1_000_000_000_000_000,
{
    let mut r: i64 = 1;
    let mut i: u32 = 0;
    while i < k
        invariant
            i <= k <= 15,
            r == pow10(i as nat),
        decreases k - i,
    {
        proof {
            lemma_pow10(i as nat);
            lemma_pow10_step(i as nat);
        }
        r = r * 10;
        i = i + 1;
    }
    proof {
        lemma_pow10(k as nat);
    }
    r
}

/// The distance between `a` and `b`.
pub open spec fn gap(a: int, b: int) -> int {
    if a >= b {
        a - b
    } else {
        b - a
    }
}

/// What a container `c` in cell `(i, j)` of a yard of side `n` costs: its
/// distance from the last cell of its row, weighted by ten to a power that
/// grows the sooner the container is due; 0 for no container.
pub open spec fn placed_cost(n: int, i: int, j: int, c: int) -> int {
    if c == -1 {
        0
    } else {
        (gap(i, c / n) + gap(j, n - 1)) * pow10((2 * (n - c % n - 1) + 1) as nat)
    }
}

/// What a container `c` costs that waits at row `i`, `ahead` places from
/// coming in: its distance from the last cell of its row, counted from
/// outside the yard, weighted by ten to a power that grows the sooner the
/// container is due.
pub open spec fn waiting_cost(n: int, i: int, ahead: int, c: int) -> int {
    (gap(i, c / n) + ahead + n) * pow10((2 * (n - c % n - 1)) as nat)
}

/// The costs are in range.
pub proof fn lemma_costs(n: int, i: int, j: int, c: int)
    requires
        1 <= n <= MAX_SIDE,
        0 <= i < n,
        0 <= j < n,
        0 <= c < n * n,
    ensures
        0 <= c / n < n,
        0 <= c % n < n,
        0 <= placed_cost(n, i, j, c) <= 14_000_000_000_000_000,
        0 <= waiting_cost(n, i, j, c) <= 2_300_000_000_000_000,
{
    assert(0 <= c / n < n && 0 <= c % n < n) by (nonlinear_arith)
        requires
            1 <= n,
            0 <= c < n * n,
    ;
    let e = (2 * (n - c % n - 1)) as nat;
    lemma_pow10(e);
    lemma_pow10(e + 1);
    let d = gap(i, c / n) + gap(j, n - 1);
    let p = pow10(e + 1);
    assert(0 <= d * p <= 14_000_000_000_000_000) by (nonlinear_arith)
        requires
            0 <= d <= 14,
            1 <= p <= 1_000_000_000_000_000,
    ;
    let far = gap(i, c / n) + j + n;
    let unit = pow10(e);
    assert(0 <= far * unit <= 2_300_000_000_000_000) by (nonlinear_arith)
        requires
            0 <= far <= 23,
            1 <= unit <= 100_000_000_000_000,
    ;
}

/// The cost of the containers in the first `k` layers of cell `(i, j)` of
/// the grid `g` of a yard of side `n`.
pub open spec fn cost_layers(g: Seq<Vec<Vec<i64>>>, n: int, i: int, j: int, k: int) -> int
    decreases k,
{
    if k <= 0 {
        0
    } else {
        cost_layers(g, n, i, j, k - 1) + placed_cost(n, i, j, g[i]@[j]@[k - 1] as int)
    }
}

/// The cost of the containers in the first `j` cells of row `i`.
pub open spec fn cost_cells(g: Seq<Vec<Vec<i64>>>, n: int, i: int, j: int) -> int
    decreases j,
{
    if j <= 0 {
        0
    } else {
        cost_cells(g, n, i, j - 1) + cost_layers(g, n, i, j - 1, 2)
    }
}

/// The cost of the containers in the first `i` rows of the yard.
pub open spec fn cost_rows(g: Seq<Vec<Vec<i64>>>, n: int, i: int) -> int
    decreases i,
{
    if i <= 0 {
        0
    } else {
        cost_rows(g, n, i - 1) + cost_cells(g, n, i - 1, n)
    }
}

/// The cost of the containers of row `i` that have not come in, from the
/// next one to come in, which is number `from` of the row, up to place `j`.
pub open spec fn cost_line(conts: Seq<Vec<i64>>, from: Seq<usize>, n: int, i: int, j: int) -> int
    decreases j,
{
    if j <= from[i] {
        0
    } else {
        cost_line(conts, from, n, i, j - 1) + waiting_cost(
            n,
            i,
            j - 1 - from[i],
            conts[i]@[j - 1] as int,
        )
    }
}

/// The cost of the containers of the first `i` rows that have not come in.
pub open spec fn cost_lines(conts: Seq<Vec<i64>>, from: Seq<usize>, n: int, i: int) -> int
    decreases i,
{
    if i <= 0 {
        0
    } else {
        cost_lines(conts, from, n, i - 1) + cost_line(conts, from, n, i - 1, n)
    }
}

impl Terminal {
    /// The score of the terminal: what the containers on the yard cost, and
    /// what those cost that have not come in. Lower is better, and 0 means
    /// that every container has left.
    pub open spec fn eval(&self) -> int {
        cost_rows(self.grid_cont@, self.h as int, self.h as int) + cost_lines(
            self.conts@,
            self.incoming_cont_idx@,
            self.h as int,
            self.h as int,
        )
    }

    /// The score of the terminal.
    #[verifier::rlimit(60)]
    pub fn evaluate(&self) -> (score: i64)
        requires
            self.ok(),
        ensures
            score == self.eval(),
            0 <= score <= 0x4000_0000_0000_0000,
    {
        let n = self.h as i64;
        let mut score: i64 = 0;
        let mut i: usize = 0;
        while i < self.h
            invariant
                i <= self.h,
                self.ok(),
                n == self.h,
                score == cost_rows(self.grid_cont@, self.h as int, i as int),
                0 <= score <= i * 8 * 2 * 14_000_000_000_000_000,
            decreases self.h - i,
        {
            let mut j: usize = 0;
            let ghost base = score;
            while j < self.w
                invariant
                    j <= self.w,
                    i < self.h,
                    self.ok(),
                    n == self.h,
                    score == base + cost_cells(self.grid_cont@, self.h as int, i as int, j as int),
                    0 <= base <= i * 8 * 2 * 14_000_000_000_000_000,
                    0 <= score - base <= j * 2 * 14_000_000_000_000_000,
                decreases self.w - j,
            {
                let mut k: usize = 0;
                let ghost base2 = score;
                while k < 2
                    invariant
                        k <= 2,
                        i < self.h,
                        j < self.w,
                        self.ok(),
                        n == self.h,
                        score == base2 + cost_layers(self.grid_cont@, self.h as int, i as int,
                            j as int, k as int),
                        0 <= base2 <= i * 8 * 2 * 14_000_000_000_000_000 + j * 2
                            * 14_000_000_000_000_000,
                        0 <= score - base2 <= k * 14_000_000_000_000_000,
                    decreases 2 - k,
                {
                    let c = self.grid_cont[i][j][k];
                    if c != -1 {
                        proof {
                            lemma_costs(self.h as int, i as int, j as int, c as int);
                        }
                        let gx = c / n;
                        let perm = c % n;
                        let a: i64 = if i as i64 >= gx {
                            i as i64 - gx
                        } else {
                            gx - i as i64
                        };
                        let b: i64 = (self.w - 1 - j) as i64;
                        let e = (2 * (n - perm - 1) + 1) as u32;
                        let p = ten_to(e);
                        assert(0 <= (a + b) * p <= 14_000_000_000_000_000) by (nonlinear_arith)
                            requires
                                0 <= a + b <= 14,
                                1 <= p <= 1_000_000_000_000_000,
                        ;
                        score = score + (a + b) * p;
                    }
                    k = k + 1;
                }
                j = j + 1;
            }
            i = i + 1;
        }
        let ghost yard = score;
        let mut i: usize = 0;
        while i < self.h
            invariant
                i <= self.h,
                self.ok(),
                n == self.h,
                0 <= yard <= 8 * 8 * 2 * 14_000_000_000_000_000,
                score == yard + cost_lines(self.conts@, self.incoming_cont_idx@, self.h as int,
                    i as int),
                0 <= score - yard <= i * 8 * 2_300_000_000_000_000,
            decreases self.h - i,
        {
            let from = self.incoming_cont_idx[i];
            let mut j: usize = from;
            let ghost base = score;
            while j < self.w
                invariant
                    from <= j <= self.w,
                    from == self.incoming_cont_idx@[i as int],
                    i < self.h,
                    self.ok(),
                    n == self.h,
                    score == base + cost_line(self.conts@, self.incoming_cont_idx@, self.h as int,
                        i as int, j as int),
                    0 <= base <= 8 * 8 * 2 * 14_000_000_000_000_000 + i * 8
                        * 2_300_000_000_000_000,
                    0 <= score - base <= (j - from) * 2_300_000_000_000_000,
                decreases self.w - j,
            {
                let c = self.conts[i][j];
                proof {
                    lemma_costs(self.h as int, i as int, (j - from) as int, c as int);
                }
                let gx = c / n;
                let perm = c % n;
                let a: i64 = if i as i64 >= gx {
                    i as i64 - gx
                } else {
                    gx - i as i64
                };
                let b: i64 = (j - from) as i64 + n;
                let e = (2 * (n - perm - 1)) as u32;
                let p = ten_to(e);
                proof {
                    lemma_pow10(e as nat);
                }
                assert(0 <= (a + b) * p <= 2_300_000_000_000_000) by (nonlinear_arith)
                    requires
                        0 <= a + b <= 23,
                        1 <= p <= 100_000_000_000_000,
                ;
                score = score + (a + b) * p;
                j = j + 1;
            }
            i = i + 1;
        }
        score
    }
}

impl Terminal {
    /// The terminal at the start: no container on the yard, crane `i` in
    /// the first cell of row `i`, the first of them the large one, and row
    /// `i` expecting container `i * n` to leave first.
    #[verifier::rlimit(60)]
    pub fn new(input: &Input) -> (r: Self)
        requires
            input.ok(),
        ensures
            r.ok(),
            r.h == input.n,
            r.turn == 0,
            r.score == 0,
            r.hash == 0,
            forall|i: int, j: int|
                0 <= i < input.n && 0 <= j < input.n ==> #[trigger] r.conts@[i]@[j] == input.a@[i]@[j],
            forall|i: int| 0 <= i < input.n ==> #[trigger] r.out_cont_idx@[i] == i * input.n,
            forall|i: int| 0 <= i < input.n ==> #[trigger] r.incoming_cont_idx@[i] == 0,
            forall|i: int, j: int, k: int|
                0 <= i < input.n && 0 <= j < input.n && 0 <= k < 2 ==> #[trigger] r.grid_cont@[i]@[j]@[k]
                    == -1,
            forall|i: int, j: int, k: int|
                0 <= i < input.n && 0 <= j < input.n && 0 <= k < 2
                    ==> !#[trigger] r.cont_suspended@[i]@[j]@[k],
            forall|i: int, j: int|
                0 <= i < input.n && 0 <= j < input.n ==> #[trigger] r.grid_crane@[i]@[j] == (if j
                    == 0 {
                    i as isize
                } else {
                    -1isize
                }),
            r.cranes@.len() == input.n,
            forall|i: int|
                0 <= i < input.n ==> {
                    let c = #[trigger] r.cranes@[i];
                    &&& c.placed()
                    &&& c.h == input.n && c.w == input.n
                    &&& c.x == i && c.y == 0 && c.idx == i
                    &&& c.big == (i == 0)
                    &&& !c.suspended && !c.exploded
                    &&& c.pre_op == 6
                },
            forall|t: int| 0 <= t <= TURN ==> (#[trigger] r.out_cont_turn@[t])@.len() == 0,
            forall|t: int| 0 <= t <= TURN ==> (#[trigger] r.incoming_cont_turn@[t])@.len() == 0,
            r.settled(),
    {
        let n = input.n;
        proof {
            assert(forall|i: int| 0 <= i < n ==> 0 <= #[trigger] (i * n) <= 64) by (nonlinear_arith)
                requires
                    1 <= n <= 8,
            ;
            assert(n * n <= 64) by (nonlinear_arith)
                requires
                    1 <= n <= 8,
            ;
        }
        let mut out_cont_idx: Vec<usize> = Vec::new();
        let mut incoming_cont_idx: Vec<usize> = Vec::new();
        let mut cranes: Vec<Crane> = Vec::new();
        let mut grid_crane: Vec<Vec<isize>> = Vec::new();
        let mut grid_cont: Vec<Vec<Vec<i64>>> = Vec::new();
        let mut cont_suspended: Vec<Vec<Vec<bool>>> = Vec::new();
        let mut conts: Vec<Vec<i64>> = Vec::new();
        let mut i: usize = 0;
        while i < n
            invariant
                i <= n,
                n == input.n,
                input.ok(),
                forall|q: int| 0 <= q < n ==> 0 <= #[trigger] (q * n) <= 64,
                out_cont_idx@.len() == i,
                incoming_cont_idx@.len() == i,
                cranes@.len() == i,
                grid_crane@.len() == i,
                grid_cont@.len() == i,
                cont_suspended@.len() == i,
                conts@.len() == i,
                forall|r: int| 0 <= r < i ==> #[trigger] out_cont_idx@[r] == r * n,
                forall|r: int| 0 <= r < i ==> #[trigger] incoming_cont_idx@[r] == 0,
                forall|r: int| 0 <= r < i ==> (#[trigger] conts@[r])@.len() == n,
                forall|r: int, j: int|
                    0 <= r < i && 0 <= j < n ==> #[trigger] conts@[r]@[j] == input.a@[r]@[j],
                forall|r: int| 0 <= r < i ==> (#[trigger] grid_crane@[r])@.len() == n,
                forall|r: int, j: int|
                    0 <= r < i && 0 <= j < n ==> #[trigger] grid_crane@[r]@[j] == (if j == 0 {
                        r as isize
                    } else {
                        -1isize
                    }),
                forall|r: int| 0 <= r < i ==> (#[trigger] grid_cont@[r])@.len() == n,
                forall|r: int, j: int|
                    0 <= r < i && 0 <= j < n ==> (#[trigger] grid_cont@[r]@[j])@.len() == 2,
                forall|r: int, j: int, k: int|
                    0 <= r < i && 0 <= j < n && 0 <= k < 2 ==> #[trigger] grid_cont@[r]@[j]@[k]
                        == -1,
                forall|r: int| 0 <= r < i ==> (#[trigger] cont_suspended@[r])@.len() == n,
                forall|r: int, j: int|
                    0 <= r < i && 0 <= j < n ==> (#[trigger] cont_suspended@[r]@[j])@.len() == 2,
                forall|r: int, j: int, k: int|
                    0 <= r < i && 0 <= j < n && 0 <= k < 2 ==> !(
                    #[trigger] cont_suspended@[r]@[j]@[k]),
                forall|r: int|
                    0 <= r < i ==> {
                        let c = #[trigger] cranes@[r];
                        &&& c.placed()
                        &&& c.h == n && c.w == n
                        &&& c.x == r && c.y == 0 && c.idx == r
                        &&& c.big == (r == 0)
                        &&& !c.suspended && !c.exploded
                        &&& c.pre_op == 6
                    },
            decreases n - i,
        {
            out_cont_idx.push(i * n);
            incoming_cont_idx.push(0);
            cranes.push(Crane::new(input, i, i, 0, i == 0));
            let mut crane_row: Vec<isize> = Vec::new();
            let mut cont_row: Vec<Vec<i64>> = Vec::new();
            let mut flag_row: Vec<Vec<bool>> = Vec::new();
            let mut line: Vec<i64> = Vec::new();
            let mut j: usize = 0;
            while j < n
                invariant
                    j <= n,
                    i < n,
                    n == input.n,
                    input.ok(),
                    crane_row@.len() == j,
                    cont_row@.len() == j,
                    flag_row@.len() == j,
                    line@.len() == j,
                    forall|q: int| 0 <= q < j ==> #[trigger] line@[q] == input.a@[i as int]@[q],
                    forall|q: int|
                        0 <= q < j ==> #[trigger] crane_row@[q] == (if q == 0 {
                            i as isize
                        } else {
                            -1isize
                        }),
                    forall|q: int| 0 <= q < j ==> (#[trigger] cont_row@[q])@.len() == 2,
                    forall|q: int, k: int|
                        0 <= q < j && 0 <= k < 2 ==> #[trigger] cont_row@[q]@[k] == -1,
                    forall|q: int| 0 <= q < j ==> (#[trigger] flag_row@[q])@.len() == 2,
                    forall|q: int, k: int| 0 <= q < j && 0 <= k < 2 ==> !(#[trigger] flag_row@[q]@[k]),
                decreases n - j,
            {
                crane_row.push(if j == 0 {
                    i as isize
                } else {
                    -1
                });
                let mut two: Vec<i64> = Vec::new();
                two.push(-1);
                two.push(-1);
                cont_row.push(two);
                let mut flags: Vec<bool> = Vec::new();
                flags.push(false);
                flags.push(false);
                flag_row.push(flags);
                line.push(input.a[i][j]);
                j = j + 1;
            }
            grid_crane.push(crane_row);
            grid_cont.push(cont_row);
            cont_suspended.push(flag_row);
            conts.push(line);
            i = i + 1;
        }
        let mut out_cont_turn: Vec<Vec<(usize, i64)>> = Vec::new();
        let mut incoming_cont_turn: Vec<Vec<usize>> = Vec::new();
        let mut t: usize = 0;
        while t <= TURN
            invariant
                t <= TURN + 1,
                out_cont_turn@.len() == t,
                incoming_cont_turn@.len() == t,
                forall|q: int| 0 <= q < t ==> (#[trigger] out_cont_turn@[q])@.len() == 0,
                forall|q: int| 0 <= q < t ==> (#[trigger] incoming_cont_turn@[q])@.len() == 0,
            decreases TURN + 1 - t,
        {
            out_cont_turn.push(Vec::new());
            incoming_cont_turn.push(Vec::new());
            t = t + 1;
        }
        let r = Terminal {
            h: n,
            w: n,
            score: 0,
            turn: 0,
            hash: 0,
            conts,
            out_cont_idx,
            incoming_cont_idx,
            grid_cont,
            grid_crane,
            cranes,
            cont_suspended,
            out_cont_turn,
            incoming_cont_turn,
        };
        proof {
            assert forall|k: int| 0 <= k < r.cranes@.len() implies crate::yard::crane_stands(
                #[trigger] r.cranes@[k],
                k,
                r.grid_crane@,
                r.grid_cont@,
                r.cont_suspended@,
            ) by {
                let c = r.cranes@[k];
                assert(r.grid_crane@[k]@[0] == k as isize);
                assert(!r.cont_suspended@[k]@[0]@[0] && !r.cont_suspended@[k]@[0]@[1]);
            }
            assert forall|i: int, j: int| 0 <= i < n && 0 <= j < n && (#[trigger] r.grid_crane@[i]@[j])
                != -1 implies crate::yard::cell_named(r.cranes@, r.grid_crane@, i, j) by {
                let c = r.cranes@[i];
            }
        }
        r
    }

    /// The history of the turn can be taken back: every row that is noted
    /// as having taken a container in has one in, and is noted once; every
    /// container that is noted as having left has a number of the yard, and
    /// its row, noted once, expects a later one.
    pub open spec fn can_undo(&self) -> bool {
        let ins = self.incoming_cont_turn@[self.turn as int]@;
        let outs = self.out_cont_turn@[self.turn as int]@;
        &&& forall|k: int|
            0 <= k < ins.len() ==> (#[trigger] ins[k]) < self.h
                && self.incoming_cont_idx@[ins[k] as int] >= 1
        &&& forall|a: int, b: int| 0 <= a < b < ins.len() ==> ins[a] != ins[b]
        &&& forall|k: int|
            0 <= k < outs.len() ==> (#[trigger] outs[k]).0 < self.h && -1 <= outs[k].1 < self.h
                * self.w && self.out_cont_idx@[outs[k].0 as int] >= 1
        &&& forall|a: int, b: int| 0 <= a < b < outs.len() ==> outs[a].0 != outs[b].0
    }

    /// `new` is this terminal after the containers that came in this turn were taken off again.
    pub open spec fn took_in_back(&self, new: &Self) -> bool {
        &&& new.ok()
        &&& self.same_yard(new)
        &&& new.out_cont_idx == self.out_cont_idx
        &&& new.out_cont_turn == self.out_cont_turn
        &&& new.incoming_cont_turn@.len() == self.incoming_cont_turn@.len()
        &&& new.incoming_cont_turn@[self.turn as int]@.len() == 0
        &&& forall|t: int|
                0 <= t <= TURN && t != self.turn ==> #[trigger] new.incoming_cont_turn@[t]
                    == self.incoming_cont_turn@[t]
        &&& forall|i: int|
                0 <= i < self.h ==> #[trigger] new.incoming_cont_idx@[i]
                    == self.incoming_cont_idx@[i]
                    - (if self.incoming_cont_turn@[self.turn as int]@.contains(i as usize) {
                    1int
                } else {
                    0int
                })
        &&& forall|i: int, j: int, k: int|
                0 <= i < self.h && 0 <= j < self.w && 0 <= k < 2
                    ==> (#[trigger] new.grid_cont@[i]@[j]@[k]) == (if j == 0 && k == 0
                    && self.incoming_cont_turn@[self.turn as int]@.contains(i as usize) {
                    -1i64
                } else {
                    self.grid_cont@[i]@[j]@[k]
                })
    }

    /// Takes back what `prepare_cont` did in this turn: the containers that
    /// came in are off the yard again, and their rows expect them again.
    #[verifier::rlimit(60)]
    pub fn prepare_cont_revert(&mut self)
        requires
            old(self).ok(),
            old(self).can_undo(),
        ensures
            final(self).ok(),
            old(self).took_in_back(final(self)),
    {
        let t = self.turn;
        let ghost ins = self.incoming_cont_turn@[t as int]@;
        let mut p: usize = 0;
        while p < self.incoming_cont_turn[t].len()
            invariant
                p <= ins.len(),
                t == self.turn,
                self.ok(),
                old(self).ok(),
                old(self).can_undo(),
                old(self).same_yard(self),
                self.out_cont_idx == old(self).out_cont_idx,
                self.out_cont_turn == old(self).out_cont_turn,
                self.incoming_cont_turn == old(self).incoming_cont_turn,
                ins == old(self).incoming_cont_turn@[t as int]@,
                forall|r: int|
                    0 <= r < self.h ==> #[trigger] self.incoming_cont_idx@[r]
                        == old(self).incoming_cont_idx@[r] - (if ins.subrange(0,
                        p as int).contains(r as usize) {
                        1int
                    } else {
                        0int
                    }),
                forall|r: int, j: int, k: int|
                    0 <= r < self.h && 0 <= j < self.w && 0 <= k < 2 ==> (
                    #[trigger] self.grid_cont@[r]@[j]@[k]) == (if j == 0 && k == 0 && ins.subrange(
                        0,
                        p as int,
                    ).contains(r as usize) {
                        -1i64
                    } else {
                        old(self).grid_cont@[r]@[j]@[k]
                    }),
            decreases ins.len() - p,
        {
            let i = self.incoming_cont_turn[t][p];
            proof {
                assert(ins[p as int] == i);
                assert(!ins.subrange(0, p as int).contains(i)) by {
                    if ins.subrange(0, p as int).contains(i) {
                        let a = choose|a: int|
                            0 <= a < p && ins.subrange(0, p as int)[a] == i;
                        assert(ins[a] == ins[p as int]);
                    }
                }
                assert forall|r: usize|
                    ins.subrange(0, p as int + 1).contains(r) <==> (ins.subrange(
                        0,
                        p as int,
                    ).contains(r) || r == i) by {
                    if ins.subrange(0, p as int).contains(r) {
                        let a = choose|a: int|
                            0 <= a < p && ins.subrange(0, p as int)[a] == r;
                        assert(ins.subrange(0, p as int + 1)[a] == r);
                    }
                    if r == i {
                        assert(ins.subrange(0, p as int + 1)[p as int] == r);
                    }
                    if ins.subrange(0, p as int + 1).contains(r) {
                        let more = ins.subrange(0, p as int + 1);
                        let a = choose|a: int| 0 <= a < more.len() && more[a] == r;
                        if a < p {
                            assert(ins.subrange(0, p as int)[a] == r);
                        }
                    }
                }
            }
            self.grid_cont[i][0][0] = -1;
            self.incoming_cont_idx[i] = self.incoming_cont_idx[i] - 1;
            p = p + 1;
        }
        proof {
            assert(ins.subrange(0, ins.len() as int) =~= ins);
        }
        self.incoming_cont_turn[t].clear();
    }

    /// `new` is this terminal after the containers that left this turn were put back.
    pub open spec fn took_out_back(&self, new: &Self) -> bool {
        &&& new.ok()
        &&& self.same_yard(new)
        &&& new.incoming_cont_idx == self.incoming_cont_idx
        &&& new.incoming_cont_turn == self.incoming_cont_turn
        &&& new.out_cont_turn@.len() == self.out_cont_turn@.len()
        &&& new.out_cont_turn@[self.turn as int]@.len() == 0
        &&& forall|t: int|
                0 <= t <= TURN && t != self.turn ==> #[trigger] new.out_cont_turn@[t]
                    == self.out_cont_turn@[t]
        &&& forall|k: int|
                0 <= k < self.out_cont_turn@[self.turn as int]@.len() ==> {
                    let e = #[trigger] self.out_cont_turn@[self.turn as int]@[k];
                    &&& new.out_cont_idx@[e.0 as int] == self.out_cont_idx@[e.0 as int]
                        - 1
                    &&& new.grid_cont@[e.0 as int]@[self.w - 1]@[0] == e.1
                }
        &&& forall|i: int|
                0 <= i < self.h && !#[trigger] noted(
                    self.out_cont_turn@[self.turn as int]@,
                    self.out_cont_turn@[self.turn as int]@.len() as int,
                    i,
                ) ==> new.out_cont_idx@[i] == self.out_cont_idx@[i] && new.grid_cont@[i]@[self.w
                    - 1]@[0] == self.grid_cont@[i]@[self.w - 1]@[0]
        &&& forall|i: int, j: int, k: int|
                0 <= i < self.h && 0 <= j < self.w && 0 <= k < 2 && !(j == self.w
                    - 1 && k == 0) ==> (#[trigger] new.grid_cont@[i]@[j]@[k])
                        == self.grid_cont@[i]@[j]@[k]
    }

    /// Takes back what `carry_out_cont` did in this turn: the containers
    /// that left stand in the last cells of their rows again, and the rows
    /// expect them again.
    #[verifier::rlimit(60)]
    pub fn carry_out_cont_revert(&mut self)
        requires
            old(self).ok(),
            old(self).can_undo(),
        ensures
            final(self).ok(),
            old(self).took_out_back(final(self)),
    {
        let t = self.turn;
        let last = self.w - 1;
        let ghost outs = self.out_cont_turn@[t as int]@;
        let mut p: usize = 0;
        while p < self.out_cont_turn[t].len()
            invariant
                p <= outs.len(),
                t == self.turn,
                last == self.w - 1,
                self.ok(),
                old(self).ok(),
                old(self).can_undo(),
                old(self).same_yard(self),
                self.incoming_cont_idx == old(self).incoming_cont_idx,
                self.incoming_cont_turn == old(self).incoming_cont_turn,
                self.out_cont_turn == old(self).out_cont_turn,
                outs == old(self).out_cont_turn@[t as int]@,
                forall|k: int|
                    0 <= k < p ==> {
                        let e = #[trigger] outs[k];
                        &&& self.out_cont_idx@[e.0 as int] == old(self).out_cont_idx@[e.0 as int] - 1
                        &&& self.grid_cont@[e.0 as int]@[self.w - 1]@[0] == e.1
                    },
                forall|i: int|
                    0 <= i < self.h && !#[trigger] noted(outs, p as int, i) ==> self.out_cont_idx@[i]
                        == old(self).out_cont_idx@[i] && self.grid_cont@[i]@[self.w - 1]@[0]
                            == old(self).grid_cont@[i]@[self.w - 1]@[0],
                forall|i: int, j: int, k: int|
                    0 <= i < self.h && 0 <= j < self.w && 0 <= k < 2 && !(j == self.w - 1 && k
                        == 0) ==> (#[trigger] self.grid_cont@[i]@[j]@[k])
                            == old(self).grid_cont@[i]@[j]@[k],
            decreases outs.len() - p,
        {
            let (i, cont_id) = self.out_cont_turn[t][p];
            proof {
                assert(outs[p as int] == (i, cont_id));
                assert(forall|k: int| 0 <= k < p ==> (#[trigger] outs[k]).0 != i);
                assert(!noted(outs, p as int, i as int));
                assert forall|r: int| noted(outs, p as int + 1, r) <==> (noted(outs, p as int, r)
                    || r == i) by {
                    if noted(outs, p as int, r) {
                        let a = choose|a: int| 0 <= a < p && (#[trigger] outs[a]).0 == r;
                        assert(0 <= a < p + 1 && outs[a].0 == r);
                    }
                    if r == i {
                        assert(0 <= p < p + 1 && outs[p as int].0 == r);
                    }
                }
                assert(self.h * self.w <= 64) by (nonlinear_arith)
                    requires
                        1 <= self.h <= 8,
                        self.w == self.h,
                ;
            }
            let ghost before = *self;
            self.grid_cont[i][last][0] = cont_id;
            self.out_cont_idx[i] = self.out_cont_idx[i] - 1;
            proof {
                assert forall|r: int| 0 <= r < self.h && !#[trigger] noted(outs, p as int + 1,
                    r) implies self.out_cont_idx@[r]
                    == old(self).out_cont_idx@[r] && self.grid_cont@[r]@[self.w - 1]@[0]
                        == old(self).grid_cont@[r]@[self.w - 1]@[0] by {
                    assert(!noted(outs, p as int, r));
                    assert(r != i);
                    assert(before.out_cont_idx@[r] == old(self).out_cont_idx@[r]);
                }
            }
            p = p + 1;
        }
        self.out_cont_turn[t].clear();
    }
}

impl Terminal {
    /// Every crane stands on this yard.
    pub open spec fn crew_ok(&self) -> bool {
        &&& self.cranes@.len() >= USING_CRANE
        &&& forall|i: int|
            0 <= i < self.cranes@.len() ==> {
                let c = #[trigger] self.cranes@[i];
                c.placed() && c.h == self.h && c.w == self.w
            }
    }

    /// The crane whose turn it is.
    pub open spec fn mover(&self) -> Crane {
        self.cranes@[self.turn as int % USING_CRANE as int]
    }

    /// `new` is this terminal after the crane whose turn it is carried out
    /// operation `op`.
    pub open spec fn acted(&self, new: &Self, op: int) -> bool {
        let k = self.turn as int % USING_CRANE as int;
        &&& new.h == self.h
        &&& new.w == self.w
        &&& new.score == self.score
        &&& new.turn == self.turn
        &&& new.hash == self.hash
        &&& new.conts == self.conts
        &&& new.out_cont_idx == self.out_cont_idx
        &&& new.incoming_cont_idx == self.incoming_cont_idx
        &&& new.out_cont_turn == self.out_cont_turn
        &&& new.incoming_cont_turn == self.incoming_cont_turn
        &&& new.cranes@.len() == self.cranes@.len()
        &&& forall|i: int|
            0 <= i < self.cranes@.len() && i != k ==> #[trigger] new.cranes@[i] == self.cranes@[i]
        &&& self.cranes@[k].acted(
            &new.cranes@[k],
            op,
            self.grid_crane@,
            new.grid_crane@,
            self.grid_cont@,
            new.grid_cont@,
            self.cont_suspended@,
            new.cont_suspended@,
        )
    }

    /// The next state: the crane whose turn it is carries out operation
    /// `op`, the containers that stand in the last column leave, new ones
    /// come in where the first column is free, the turn is counted, and the
    /// score is that of the new state.
    #[verifier::rlimit(60)]
    pub fn apply(&mut self, op: usize)
        requires
            old(self).ok(),
            old(self).crew_ok(),
            old(self).turn < TURN,
            old(self).mover().can(op as int, old(self).grid_cont@),
            forall|i: int|
                0 <= i < old(self).h ==> (#[trigger] old(self).out_cont_idx@[i]) < 0x7fff_ffff,
        ensures
            final(self).ok(),
            final(self).crew_ok(),
            final(self).h == old(self).h,
            final(self).conts == old(self).conts,
            final(self).turn == old(self).turn + 1,
            final(self).score == final(self).eval(),
            0 <= final(self).score <= 0x4000_0000_0000_0000,
            old(self).applied(final(self), op as int),
            final(self).cranes@.len() == old(self).cranes@.len(),
            forall|i: int|
                0 <= i < old(self).cranes@.len() && i != old(self).turn as int % USING_CRANE as int
                    ==> #[trigger] final(self).cranes@[i] == old(self).cranes@[i],
            ({
                let k = old(self).turn as int % USING_CRANE as int;
                let c0 = old(self).cranes@[k];
                let c1 = final(self).cranes@[k];
                &&& c1.x == (if op < 4 {
                    c0.x + dx_spec(op as int)
                } else {
                    c0.x as int
                })
                &&& c1.y == (if op < 4 {
                    c0.y + dy_spec(op as int)
                } else {
                    c0.y as int
                })
                &&& c1.pre_op == op
                &&& c1.suspended == (if op == 4 {
                    true
                } else if op == 5 {
                    false
                } else {
                    c0.suspended
                })
                &&& c1.exploded == (c0.exploded || op == 7)
            }),
    {
        let k = self.turn % USING_CRANE;
        let ghost g0 = self.grid_cont@;
        self.cranes[k].action(op, &mut self.grid_crane, &mut self.grid_cont, &mut self.cont_suspended);
        proof {
            assert forall|i: int, j: int, l: int|
                0 <= i < self.h && 0 <= j < self.w && 0 <= l < 2 implies (
            #[trigger] self.grid_cont@[i]@[j]@[l]) < self.h * self.w by {
                let c0 = old(self).cranes@[k as int];
                assert(g0[i]@[j]@[l] < self.h * self.w);
                assert(g0[c0.x as int]@[c0.y as int]@[0] < self.h * self.w);
                assert(g0[c0.x as int]@[c0.y as int]@[1] < self.h * self.w);
                assert(0 < self.h * self.w) by (nonlinear_arith)
                    requires
                        1 <= self.h,
                        self.w == self.h,
                ;
            }
        }
        let ghost a = *self;
        self.carry_out_cont();
        let ghost b = *self;
        self.prepare_cont();
        let ghost c = *self;
        self.turn = self.turn + 1;
        self.score = self.evaluate();
        proof {
            assert(old(self).acted(&a, op as int) && a.let_out(&b) && b.let_in(&c));
        }
    }

    /// `new` is this terminal after the crane whose turn it is took back
    /// operation `op`, the last that it carried out.
    pub open spec fn took_back(&self, new: &Self, op: int) -> bool {
        let k = self.turn as int % USING_CRANE as int;
        &&& new.h == self.h
        &&& new.w == self.w
        &&& new.score == self.score
        &&& new.turn == self.turn
        &&& new.hash == self.hash
        &&& new.conts == self.conts
        &&& new.out_cont_idx == self.out_cont_idx
        &&& new.incoming_cont_idx == self.incoming_cont_idx
        &&& new.out_cont_turn == self.out_cont_turn
        &&& new.incoming_cont_turn == self.incoming_cont_turn
        &&& new.cranes@.len() == self.cranes@.len()
        &&& forall|i: int|
            0 <= i < self.cranes@.len() && i != k ==> #[trigger] new.cranes@[i] == self.cranes@[i]
        &&& self.cranes@[k].taken_back(
            &new.cranes@[k],
            op,
            self.grid_crane@,
            new.grid_crane@,
            self.grid_cont@,
            new.grid_cont@,
            self.cont_suspended@,
            new.cont_suspended@,
        )
    }

    /// `new` is the next state of this terminal by operation `op`: the
    /// crane whose turn it is has carried it out, then the containers in
    /// the last column have left, then new ones have come in, the turn is
    /// counted, and the score is that of the new state.
    pub open spec fn applied(&self, new: &Self, op: int) -> bool {
        &&& new.score == new.eval()
        &&& exists|a: Terminal, b: Terminal, c: Terminal|
            #![trigger self.acted(&a, op), a.let_out(&b), b.let_in(&c)]
            self.acted(&a, op) && a.let_out(&b) && b.let_in(&c) && *new == (Terminal {
                turn: (c.turn + 1) as usize,
                score: new.score,
                ..c
            })
    }

    /// `new` is the state before this one, which operation `op` led to: the
    /// turn is counted back, the containers that came in and those that
    /// left in it are put back, then the crane whose turn it was has taken
    /// `op` back, and the score is that of the state reached.
    pub open spec fn reverted(&self, new: &Self, op: int) -> bool {
        &&& new.score == new.eval()
        &&& exists|a: Terminal, b: Terminal, c: Terminal|
            #![trigger a.took_out_back(&b), b.took_back(&c, op)]
            (Terminal { turn: (self.turn - 1) as usize, ..*self }).took_in_back(&a)
                && a.took_out_back(&b) && b.took_back(&c, op) && *new == (Terminal {
                score: new.score,
                ..c
            })
    }

    /// Operation `op` can be taken back from this terminal: a turn was
    /// counted, its history can be taken back, and the crane whose turn it
    /// was can take `op` back.
    pub open spec fn can_revert(&self, op: int) -> bool {
        let was = Terminal { turn: (self.turn - 1) as usize, ..*self };
        &&& self.turn >= 1
        &&& 0 <= op < OP_NUM
        &&& was.can_undo()
        &&& was.mover().can_take_back(op)
    }

    /// The state before: the turn is counted back, the containers that came
    /// in and those that left in it are put back, the crane whose turn it
    /// was takes operation `op` back, and the score is that of the state
    /// reached. After `apply` with `op` this gives the state before it.
    #[verifier::rlimit(60)]
    pub fn revert(&mut self, op: usize)
        requires
            old(self).ok(),
            old(self).crew_ok(),
            old(self).can_revert(op as int),
        ensures
            final(self).ok(),
            final(self).crew_ok(),
            final(self).h == old(self).h,
            final(self).conts == old(self).conts,
            final(self).turn == old(self).turn - 1,
            final(self).score == final(self).eval(),
            old(self).reverted(final(self), op as int),
            final(self).cranes@.len() == old(self).cranes@.len(),
            forall|i: int|
                0 <= i < old(self).cranes@.len() && i != (old(self).turn - 1) % USING_CRANE as int
                    ==> #[trigger] final(self).cranes@[i] == old(self).cranes@[i],
            ({
                let k = (old(self).turn - 1) % USING_CRANE as int;
                let c0 = old(self).cranes@[k];
                let c1 = final(self).cranes@[k];
                &&& c1.x == (if op < 4 {
                    c0.x - dx_spec(op as int)
                } else {
                    c0.x as int
                })
                &&& c1.y == (if op < 4 {
                    c0.y - dy_spec(op as int)
                } else {
                    c0.y as int
                })
                &&& c1.pre_op == c0.trail@.last().0
                &&& c1.suspended == (if op == 4 {
                    false
                } else if op == 5 {
                    true
                } else {
                    c0.suspended
                })
            }),
    {
        self.turn = self.turn - 1;
        let ghost was = *self;
        self.prepare_cont_revert();
        let ghost mid = *self;
        proof {
            assert(mid.can_undo());
        }
        self.carry_out_cont_revert();
        let k = self.turn % USING_CRANE;
        proof {
            assert(self.cranes@[k as int] == was.mover());
        }
        let ghost g0 = self.grid_cont@;
        let ghost put = *self;
        self.cranes[k].take_back(op, &mut self.grid_crane, &mut self.grid_cont, &mut self.cont_suspended);
        let ghost done = *self;
        proof {
            assert(was.took_in_back(&mid) && mid.took_out_back(&put) && put.took_back(&done, op as int));
            assert forall|i: int, j: int, l: int|
                0 <= i < self.h && 0 <= j < self.w && 0 <= l < 2 implies (
            #[trigger] self.grid_cont@[i]@[j]@[l]) < self.h * self.w by {
                let c0 = was.cranes@[k as int];
                assert(g0[i]@[j]@[l] < self.h * self.w);
                assert(g0[c0.x as int]@[c0.y as int]@[0] < self.h * self.w);
                assert(g0[c0.x as int]@[c0.y as int]@[1] < self.h * self.w);
                assert(0 < self.h * self.w) by (nonlinear_arith)
                    requires
                        1 <= self.h,
                        self.w == self.h,
                ;
            }
        }
        self.score = self.evaluate();
        proof {
            let fin = *self;
            assert(fin == (Terminal { score: fin.score, ..done }));
        }
    }
}

/// A proposed next operation for the terminal that node `parent` of a
/// search tree stands for, with the score it would lead to.
#[derive(Clone, Copy, Debug, PartialEq, Eq)]
pub struct Cand {
    pub op: usize,
    pub parent: usize,
    pub eval_score: i64,
    pub hash: u64,
}

impl Terminal {
    /// By how much operation `op` of the crane whose turn it is changes the
    /// score that is kept for ranking: a move with a container changes it
    /// by the change of the container's distance from the last cell of its
    /// row, weighted like a container that waits; anything else leaves it.
    pub open spec fn move_delta(&self, op: int) -> int {
        let c = self.mover();
        if op < 4 && c.suspended {
            let cont = self.grid_cont@[c.x as int]@[c.y as int]@[layer(c.big)] as int;
            let n = self.h as int;
            let gx = cont / n;
            let nx = c.x + dx_spec(op);
            let ny = c.y + dy_spec(op);
            (gap(nx, gx) + gap(ny, n - 1)) * pow10((2 * (n - cont % n - 1)) as nat) - (gap(
                c.x as int,
                gx,
            ) + gap(c.y as int, n - 1)) * pow10((2 * (n - cont % n - 1)) as nat)
        } else {
            0
        }
    }

    /// The candidate that is offered for operation `op` from node `idx`.
    pub open spec fn cand_for(&self, idx: usize, op: int) -> Cand {
        Cand {
            op: op as usize,
            parent: idx,
            eval_score: (self.score + self.move_delta(op)) as i64,
            hash: 0,
        }
    }

    /// The candidates that are offered for node `idx` when the answers of
    /// the crane to the first `n` operations are `rs`: one for each
    /// operation that the crane found open, in the order of their numbers.
    pub open spec fn picks(&self, idx: usize, rs: Seq<bool>, n: int) -> Seq<Cand>
        decreases n,
    {
        if n <= 0 {
            Seq::empty()
        } else if rs[n - 1] {
            self.picks(idx, rs, n - 1).push(self.cand_for(idx, n - 1))
        } else {
            self.picks(idx, rs, n - 1)
        }
    }

    /// The crane whose turn it is was asked about the first `n` operations
    /// in turn, went through the situations `cs` and gave the answers `rs`:
    /// an operation that would undo its last one is passed over, which
    /// counts as a no; about every other one the crane is asked whether it
    /// is open, which may leave new codes with it and nothing else.
    pub open spec fn went_round(&self, cs: Seq<Crane>, rs: Seq<bool>, n: int) -> bool {
        &&& cs.len() == n + 1
        &&& rs.len() == n
        &&& cs[0] == self.mover()
        &&& forall|op: int| 0 <= op < n ==> #[trigger] self.asked_about(cs, rs, op)
    }

    /// Step `op` of a round: the crane goes from situation `cs[op]` to
    /// `cs[op + 1]` and gives the answer `rs[op]`. An operation that would
    /// undo the crane's last one is passed over, which counts as a no; about
    /// any other the crane is asked whether it is open.
    pub open spec fn asked_about(&self, cs: Seq<Crane>, rs: Seq<bool>, op: int) -> bool {
        if code_of(reverse_spec(op)) == self.mover().pre_op {
            cs[op + 1] == cs[op] && !rs[op]
        } else {
            cs[op].action_ok_asked(
                &cs[op + 1],
                rs[op],
                op,
                self.grid_crane@,
                self.grid_cont@,
                self.out_cont_idx@,
            )
        }
    }

    /// The candidates for the first `n` operations depend on the answers to
    /// those operations only.
    pub proof fn lemma_picks_prefix(&self, idx: usize, rs: Seq<bool>, more: Seq<bool>, n: int)
        requires
            0 <= n <= rs.len(),
            rs.len() <= more.len(),
            forall|k: int| 0 <= k < n ==> rs[k] == more[k],
        ensures
            self.picks(idx, rs, n) == self.picks(idx, more, n),
        decreases n,
    {
        if n > 0 {
            self.lemma_picks_prefix(idx, rs, more, n - 1);
        }
    }

    /// The score that is kept for ranking after operation `op` of the crane
    /// whose turn it is.
    #[verifier::rlimit(60)]
    fn rank(&self, op: usize) -> (r: i64)
        requires
            self.ok(),
            self.crew_ok(),
            op < OP_NUM,
            -0x4000_0000_0000_0000 <= self.score <= 0x4000_0000_0000_0000,
            op < 4 && self.mover().suspended ==> {
                &&& 0 <= self.mover().x + dx_spec(op as int) < self.h
                &&& 0 <= self.mover().y + dy_spec(op as int) < self.w
                &&& self.grid_cont@[self.mover().x as int]@[self.mover().y as int]@[layer(
                    self.mover().big,
                )] != -1
            },
        ensures
            r == self.score + self.move_delta(op as int),
            r == self.cand_for(0, op as int).eval_score,
    {
        let k = self.turn % USING_CRANE;
        let n = self.h as i64;
        let mut eval_score = self.score;
        if op < 4 && self.cranes[k].suspended {
            let px = self.cranes[k].x as i64;
            let py = self.cranes[k].y as i64;
            let nx = px + crate::crane::dx(op) as i64;
            let ny = py + crate::crane::dy(op) as i64;
            let l: usize = if self.cranes[k].big {
                1
            } else {
                0
            };
            let cont = self.grid_cont[px as usize][py as usize][l];
            proof {
                lemma_costs(self.h as int, px as int, py as int, cont as int);
            }
            let gx = cont / n;
            let perm = cont % n;
            let p = ten_to((2 * (n - perm - 1)) as u32);
            proof {
                lemma_pow10((2 * (n - perm - 1)) as nat);
            }
            let da: i64 = if px >= gx {
                px - gx
            } else {
                gx - px
            };
            let db: i64 = n - 1 - py;
            let ea: i64 = if nx >= gx {
                nx - gx
            } else {
                gx - nx
            };
            let eb: i64 = if ny >= n - 1 {
                ny - (n - 1)
            } else {
                n - 1 - ny
            };
            assert(0 <= (da + db) * p <= 1_500_000_000_000_000 && 0 <= (ea + eb) * p
                <= 1_700_000_000_000_000) by (nonlinear_arith)
                requires
                    0 <= da + db <= 14,
                    0 <= ea + eb <= 16,
                    1 <= p <= 100_000_000_000_000,
            ;
            eval_score = eval_score - (da + db) * p;
            eval_score = eval_score + (ea + eb) * p;
        }
        eval_score
    }

    /// Appends to `cands` a candidate for each of the seven operations that
    /// does not undo the last operation of the crane whose turn it is, and
    /// that the crane finds open, in the order of their numbers. Asking the
    /// crane may give codes to new keys; the terminal is otherwise as it
    /// was, the crane's fingerprint too.
    #[verifier::rlimit(60)]
    pub fn append_cands(&mut self, idx: usize, cands: &mut Vec<Cand>)
        requires
            old(self).ok(),
            old(self).crew_ok(),
            -0x4000_0000_0000_0000 <= old(self).score <= 0x4000_0000_0000_0000,
            old(self).mover().suspended
                ==> old(self).grid_cont@[old(self).mover().x as int]@[old(self).mover().y as int]@[layer(
                old(self).mover().big,
            )] != -1,
        ensures
            final(self).ok(),
            final(self).crew_ok(),
            old(self).same_yard_but_crew(final(self)),
            final(self).cranes@.len() == old(self).cranes@.len(),
            forall|i: int|
                0 <= i < old(self).cranes@.len() && i != old(self).turn as int % USING_CRANE as int
                    ==> #[trigger] final(self).cranes@[i] == old(self).cranes@[i],
            old(self).mover().same_but_print(&final(self).mover()),
            final(self).mover().seen() == old(self).mover().seen(),
            final(self).mover().print().value() == old(self).mover().print().value(),
            exists|cs: Seq<Crane>, rs: Seq<bool>| #[trigger]
                old(self).went_round(cs, rs, OP_NUM as int) && final(self).mover() == cs[OP_NUM as int]
                    && final(cands)@ == old(cands)@ + old(self).picks(idx, rs, OP_NUM as int),
    {
        let k = self.turn % USING_CRANE;
        let ghost before = cands@;
        let ghost mut cs: Seq<Crane> = Seq::empty().push(self.mover());
        let ghost mut rs: Seq<bool> = Seq::empty();
        let mut op: usize = 0;
        proof {
            assert(cands@ =~= before + old(self).picks(idx, rs, 0));
        }
        while op < OP_NUM
            invariant
                op <= OP_NUM,
                k == self.turn % USING_CRANE,
                self.ok(),
                self.crew_ok(),
                old(self).ok(),
                old(self).same_yard_but_crew(self),
                -0x4000_0000_0000_0000 <= self.score <= 0x4000_0000_0000_0000,
                self.cranes@.len() == old(self).cranes@.len(),
                forall|i: int|
                    0 <= i < old(self).cranes@.len() && i != k ==> #[trigger] self.cranes@[i]
                        == old(self).cranes@[i],
                old(self).mover().same_but_print(&self.mover()),
                self.mover().seen() == old(self).mover().seen(),
                self.mover().print().value() == old(self).mover().print().value(),
                self.mover().suspended
                    ==> self.grid_cont@[self.mover().x as int]@[self.mover().y as int]@[layer(
                    self.mover().big,
                )] != -1,
                old(self).went_round(cs, rs, op as int),
                cs[op as int] == self.mover(),
                cands@ == before + old(self).picks(idx, rs, op as int),
            decreases OP_NUM - op,
        {
            let ghost was = self.mover();
            let ghost had = cands@;
            let mut open = false;
            if code(reverse_op(op)) != self.cranes[k].pre_op {
                open = self.cranes[k].action_ok(
                    op,
                    &self.grid_crane,
                    &self.grid_cont,
                    &self.out_cont_idx,
                );
                if open {
                    let eval_score = self.rank(op);
                    cands.push(Cand { op, parent: idx, eval_score, hash: 0 });
                    proof {
                        assert(self.move_delta(op as int) == old(self).move_delta(op as int));
                    }
                }
            }
            proof {
                let cs2 = cs.push(self.mover());
                let rs2 = rs.push(open);
                old(self).lemma_picks_prefix(idx, rs, rs2, op as int);
                assert(cands@ =~= before + old(self).picks(idx, rs2, op as int + 1));
                assert forall|o: int| 0 <= o < op + 1 implies #[trigger] old(self).asked_about(
                    cs2,
                    rs2,
                    o,
                ) by {
                    if o < op {
                        assert(old(self).asked_about(cs, rs, o));
                        assert(rs2[o] == rs[o]);
                        assert(cs2[o] == cs[o]);
                        assert(cs2[o + 1] == cs[o + 1]);
                    } else {
                        assert(cs2[o] == was);
                        assert(cs2[o + 1] == self.mover());
                        assert(rs2[o] == open);
                    }
                }
                assert(cs2[0] == cs[0]);
                assert(cs2.len() == op + 2 && rs2.len() == op + 1);
                assert(old(self).went_round(cs2, rs2, op as int + 1));
                cs = cs2;
                rs = rs2;
            }
            op = op + 1;
        }
    }

    /// `new` is this terminal but for its cranes.
    pub open spec fn same_yard_but_crew(&self, new: &Self) -> bool {
        &&& new.h == self.h
        &&& new.w == self.w
        &&& new.score == self.score
        &&& new.turn == self.turn
        &&& new.hash == self.hash
        &&& new.conts == self.conts
        &&& new.out_cont_idx == self.out_cont_idx
        &&& new.incoming_cont_idx == self.incoming_cont_idx
        &&& new.grid_cont == self.grid_cont
        &&& new.grid_crane == self.grid_crane
        &&& new.cont_suspended == self.cont_suspended
        &&& new.out_cont_turn == self.out_cont_turn
        &&& new.incoming_cont_turn == self.incoming_cont_turn
    }
}

} // verus!
