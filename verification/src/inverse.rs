//! Taking an operation of the terminal back gives the state before it.

use crate::crane::{Crane, MAX_SIDE};
use crate::ops::{OP_NUM, USING_CRANE};
use crate::terminal::{
    cost_cells, cost_layers, cost_line, cost_lines, cost_rows, noted, Terminal, TURN,
};
use vstd::prelude::*;

verus! {

/// The cost of the containers on a yard depends on what its cells hold.
pub proof fn lemma_cost_rows_same(g: Seq<Vec<Vec<i64>>>, f: Seq<Vec<Vec<i64>>>, n: int, i: int)
    requires
        0 <= i <= n,
        forall|r: int, j: int, k: int|
            0 <= r < n && 0 <= j < n && 0 <= k < 2 ==> #[trigger] g[r]@[j]@[k] == f[r]@[j]@[k],
    ensures
        cost_rows(g, n, i) == cost_rows(f, n, i),
    decreases i,
{
    if i > 0 {
        lemma_cost_rows_same(g, f, n, i - 1);
        lemma_cost_cells_same(g, f, n, i - 1, n);
    }
}

/// The cost of the containers in a row depends on what its cells hold.
pub proof fn lemma_cost_cells_same(
    g: Seq<Vec<Vec<i64>>>,
    f: Seq<Vec<Vec<i64>>>,
    n: int,
    i: int,
    j: int,
)
    requires
        0 <= i < n,
        0 <= j <= n,
        forall|r: int, j: int, k: int|
            0 <= r < n && 0 <= j < n && 0 <= k < 2 ==> #[trigger] g[r]@[j]@[k] == f[r]@[j]@[k],
    ensures
        cost_cells(g, n, i, j) == cost_cells(f, n, i, j),
    decreases j,
{
    if j > 0 {
        lemma_cost_cells_same(g, f, n, i, j - 1);
        assert(g[i]@[j - 1]@[0] == f[i]@[j - 1]@[0]);
        assert(g[i]@[j - 1]@[1] == f[i]@[j - 1]@[1]);
        assert(cost_layers(g, n, i, j - 1, 2) == cost_layers(f, n, i, j - 1, 2)) by {
            reveal_with_fuel(cost_layers, 3);
        }
    }
}

/// The cost of the containers of a row that have not come in depends on
/// what is to come.
pub proof fn lemma_cost_line_same(
    conts: Seq<Vec<i64>>,
    other: Seq<Vec<i64>>,
    from: Seq<usize>,
    n: int,
    i: int,
    j: int,
)
    requires
        0 <= i < n,
        0 <= j <= n,
        forall|r: int, q: int| 0 <= r < n && 0 <= q < n ==> #[trigger] conts[r]@[q] == other[r]@[q],
    ensures
        cost_line(conts, from, n, i, j) == cost_line(other, from, n, i, j),
    decreases j,
{
    if j > from[i] {
        lemma_cost_line_same(conts, other, from, n, i, j - 1);
        assert(conts[i]@[j - 1] == other[i]@[j - 1]);
    }
}

/// The cost of the containers that have not come in depends on what is to
/// come.
pub proof fn lemma_cost_lines_same(
    conts: Seq<Vec<i64>>,
    other: Seq<Vec<i64>>,
    from: Seq<usize>,
    n: int,
    i: int,
)
    requires
        0 <= i <= n,
        forall|r: int, q: int| 0 <= r < n && 0 <= q < n ==> #[trigger] conts[r]@[q] == other[r]@[q],
    ensures
        cost_lines(conts, from, n, i) == cost_lines(other, from, n, i),
    decreases i,
{
    if i > 0 {
        lemma_cost_lines_same(conts, other, from, n, i - 1);
        lemma_cost_line_same(conts, other, from, n, i - 1, n);
    }
}

impl Terminal {
    /// `new` holds what this terminal holds: the same yard, turn, score and
    /// fingerprint, the same containers in every cell and the same crane
    /// and flag, the same counts and histories, and the same cranes; only
    /// the crane whose turn it is may have codes for more keys.
    pub open spec fn same_state(&self, new: &Self) -> bool {
        let m = self.turn as int % USING_CRANE as int;
        &&& new.h == self.h
        &&& new.w == self.w
        &&& new.turn == self.turn
        &&& new.hash == self.hash
        &&& new.eval() == self.eval()
        &&& self.score == self.eval() ==> new.score == self.score
        &&& new.conts == self.conts
        &&& new.out_cont_idx@ == self.out_cont_idx@
        &&& new.incoming_cont_idx@ == self.incoming_cont_idx@
        &&& forall|i: int, j: int, k: int|
            0 <= i < self.h && 0 <= j < self.w && 0 <= k < 2 ==> #[trigger] new.grid_cont@[i]@[j]@[k]
                == self.grid_cont@[i]@[j]@[k]
        &&& forall|i: int, j: int|
            0 <= i < self.h && 0 <= j < self.w ==> #[trigger] new.grid_crane@[i]@[j]
                == self.grid_crane@[i]@[j]
        &&& forall|i: int, j: int, k: int|
            0 <= i < self.h && 0 <= j < self.w && 0 <= k < 2
                ==> #[trigger] new.cont_suspended@[i]@[j]@[k] == self.cont_suspended@[i]@[j]@[k]
        &&& forall|t: int|
            0 <= t <= TURN ==> (#[trigger] new.out_cont_turn@[t])@ == self.out_cont_turn@[t]@
        &&& forall|t: int|
            0 <= t <= TURN ==> (#[trigger] new.incoming_cont_turn@[t])@
                == self.incoming_cont_turn@[t]@
        &&& new.cranes@.len() == self.cranes@.len()
        &&& forall|i: int|
            0 <= i < self.cranes@.len() && i != m ==> #[trigger] new.cranes@[i] == self.cranes@[i]
        &&& self.mover().same_but_print(&new.mover())
        &&& new.mover().seen() == self.mover().seen()
        &&& new.mover().print().value() == self.mover().print().value()
        &&& forall|k: u64|
            self.mover().print().codes().dom().contains(k) ==> new.mover().print().codes().dom().contains(
                k,
            ) && #[trigger] new.mover().print().codes()[k] == self.mover().print().codes()[k]
    }

    /// Operation `op` is open to the crane whose turn it is, on a yard that
    /// agrees with its cranes: the crane can carry it out, it stands where
    /// the grids say, unless it only stands for a turn, nothing is in its
    /// way, and nothing is noted yet for the turn.
    pub open spec fn open_to(&self, op: int) -> bool {
        &&& 0 <= op < OP_NUM
        &&& self.turn < TURN
        &&& self.mover().can(op, self.grid_cont@)
        &&& op != 6 ==> self.mover().on_grids(self.grid_crane@, self.cont_suspended@)
        &&& self.mover().way_free(op, self.grid_crane@, self.grid_cont@, self.cont_suspended@)
        &&& self.out_cont_turn@[self.turn as int]@.len() == 0
        &&& self.incoming_cont_turn@[self.turn as int]@.len() == 0
    }

    /// The rows that `rows_in` notes are those that take a container in,
    /// each once and in rising order.
    pub proof fn lemma_rows_in(&self, n: int)
        requires
            0 <= n <= self.h <= MAX_SIDE,
        ensures
            forall|k: int|
                0 <= k < self.rows_in(n).len() ==> 0 <= (#[trigger] self.rows_in(n)[k]) < n
                    && self.takes_in(self.rows_in(n)[k] as int),
            forall|i: int| 0 <= i < n && self.takes_in(i) ==> self.rows_in(n).contains(i as usize),
            forall|a: int, b: int|
                0 <= a < b < self.rows_in(n).len() ==> self.rows_in(n)[a] < self.rows_in(n)[b],
        decreases n,
    {
        if n > 0 {
            self.lemma_rows_in(n - 1);
            let s = self.rows_in(n - 1);
            if self.takes_in(n - 1) {
                let t = s.push((n - 1) as usize);
                assert(t[s.len() as int] == (n - 1) as usize);
                assert forall|i: int| 0 <= i < n && self.takes_in(i) implies t.contains(i as usize) by {
                    if i < n - 1 {
                        let a = choose|a: int| 0 <= a < s.len() && s[a] == i as usize;
                        assert(t[a] == i as usize);
                    }
                }
            }
        }
    }

    /// The containers that `rows_out` notes are those of the rows that let
    /// one out, each row once and in rising order.
    pub proof fn lemma_rows_out(&self, n: int)
        requires
            0 <= n <= self.h <= MAX_SIDE,
        ensures
            forall|k: int|
                0 <= k < self.rows_out(n).len() ==> 0 <= (#[trigger] self.rows_out(n)[k]).0 < n
                    && self.lets_out(self.rows_out(n)[k].0 as int) && self.rows_out(n)[k].1
                    == self.grid_cont@[self.rows_out(n)[k].0 as int]@[self.w - 1]@[0],
            forall|i: int|
                0 <= i < n && self.lets_out(i) ==> noted(
                    self.rows_out(n),
                    self.rows_out(n).len() as int,
                    i,
                ),
            forall|a: int, b: int|
                0 <= a < b < self.rows_out(n).len() ==> self.rows_out(n)[a].0 < self.rows_out(n)[b].0,
        decreases n,
    {
        if n > 0 {
            self.lemma_rows_out(n - 1);
            let s = self.rows_out(n - 1);
            if self.lets_out(n - 1) {
                let t = s.push(((n - 1) as usize, self.grid_cont@[n - 1]@[self.w - 1]@[0]));
                assert(t[s.len() as int].0 == (n - 1) as usize);
                assert forall|i: int| 0 <= i < n && self.lets_out(i) implies noted(
                    t,
                    t.len() as int,
                    i,
                ) by {
                    if i < n - 1 {
                        let a = choose|a: int| 0 <= a < s.len() && (#[trigger] s[a]).0 == i;
                        assert(t[a].0 == i);
                    }
                }
            }
        }
    }
}

impl Terminal {
    /// `new` holds on its yard what this terminal holds on its own: the
    /// same size, turn, fingerprint, containers to come, cranes, grid of
    /// cranes and flags, and equal counts, histories and cells.
    pub open spec fn same_yard_cells(&self, new: &Self) -> bool {
        &&& new.h == self.h
        &&& new.w == self.w
        &&& new.turn == self.turn
        &&& new.hash == self.hash
        &&& new.conts == self.conts
        &&& new.cranes == self.cranes
        &&& new.grid_crane == self.grid_crane
        &&& new.cont_suspended == self.cont_suspended
        &&& new.out_cont_idx@ == self.out_cont_idx@
        &&& new.incoming_cont_idx@ == self.incoming_cont_idx@
        &&& forall|t: int|
            0 <= t <= TURN ==> (#[trigger] new.out_cont_turn@[t])@ == self.out_cont_turn@[t]@
        &&& forall|t: int|
            0 <= t <= TURN ==> (#[trigger] new.incoming_cont_turn@[t])@
                == self.incoming_cont_turn@[t]@
        &&& forall|i: int, j: int, k: int|
            0 <= i < self.h && 0 <= j < self.w && 0 <= k < 2 ==> #[trigger] new.grid_cont@[i]@[j]@[k]
                == self.grid_cont@[i]@[j]@[k]
    }

    /// Taking back the containers that came in undoes their coming in: if
    /// `c` is the terminal `b` after containers came in, in a turn for which
    /// none was noted before, and `back` is what taking them back makes of
    /// `c`, whatever its score, then `back` holds what `b` held.
    pub proof fn lemma_in_and_back(b: Terminal, c: Terminal, was: Terminal, back: Terminal)
        requires
            b.ok(),
            b.turn <= TURN,
            b.incoming_cont_turn@[b.turn as int]@.len() == 0,
            b.let_in(&c),
            was == (Terminal { score: was.score, ..c }),
            was.took_in_back(&back),
        ensures
            b.same_yard_cells(&back),
    {
        b.lemma_rows_in(b.h as int);
        let ins = was.incoming_cont_turn@[was.turn as int]@;
        assert(ins =~= b.rows_in(b.h as int));
        assert forall|i: int| 0 <= i < b.h implies (ins.contains(i as usize) <==> b.takes_in(i)) by {
            if ins.contains(i as usize) {
                let a = choose|a: int| 0 <= a < ins.len() && ins[a] == i as usize;
                assert(b.takes_in(ins[a] as int));
            }
        }
        assert forall|i: int| 0 <= i < b.h implies #[trigger] back.incoming_cont_idx@[i]
            == b.incoming_cont_idx@[i] by {
            assert(c.incoming_cont_idx@[i] == b.incoming_cont_idx@[i] + (if b.takes_in(i) {
                1int
            } else {
                0int
            }));
        }
        assert(back.incoming_cont_idx@ =~= b.incoming_cont_idx@);
        assert forall|i: int, j: int, k: int|
            0 <= i < b.h && 0 <= j < b.w && 0 <= k < 2 implies #[trigger] back.grid_cont@[i]@[j]@[k]
            == b.grid_cont@[i]@[j]@[k] by {
            let through = c.grid_cont@[i]@[j]@[k];
        }
        assert forall|t: int| 0 <= t <= TURN implies (#[trigger] back.incoming_cont_turn@[t])@
            == b.incoming_cont_turn@[t]@ by {
            if t == b.turn {
                assert(back.incoming_cont_turn@[t]@ =~= b.incoming_cont_turn@[t]@);
            } else {
                assert(c.incoming_cont_turn@[t] == b.incoming_cont_turn@[t]);
            }
        }
    }

    /// Putting back the containers that left undoes their leaving: if `b`
    /// is the terminal `a` after containers left, in a turn for which none
    /// was noted before, `had` holds what `b` holds, and `back` is what
    /// putting them back makes of `had`, then `back` holds what `a` held.
    pub proof fn lemma_out_and_back(a: Terminal, b: Terminal, had: Terminal, back: Terminal)
        requires
            a.ok(),
            a.turn <= TURN,
            a.out_cont_turn@[a.turn as int]@.len() == 0,
            a.let_out(&b),
            b.same_yard_cells(&had),
            had.took_out_back(&back),
        ensures
            a.same_yard_cells(&back),
    {
        a.lemma_rows_out(a.h as int);
        let outs = had.out_cont_turn@[had.turn as int]@;
        let n = outs.len() as int;
        assert(outs =~= a.rows_out(a.h as int));
        assert forall|i: int| 0 <= i < a.h implies (noted(outs, n, i) <==> a.lets_out(i)) by {
            if noted(outs, n, i) {
                let k = choose|k: int| 0 <= k < n && (#[trigger] outs[k]).0 == i;
                assert(a.lets_out(outs[k].0 as int));
            }
        }
        assert forall|i: int| 0 <= i < a.h implies #[trigger] back.out_cont_idx@[i]
            == a.out_cont_idx@[i] && back.grid_cont@[i]@[a.w - 1]@[0] == a.grid_cont@[i]@[a.w
            - 1]@[0] by {
            assert(b.out_cont_idx@[i] == a.out_cont_idx@[i] + (if a.lets_out(i) {
                1int
            } else {
                0int
            }));
            assert(had.grid_cont@[i]@[a.w - 1]@[0] == b.grid_cont@[i]@[a.w - 1]@[0]);
            if noted(outs, n, i) {
                let k = choose|k: int| 0 <= k < n && (#[trigger] outs[k]).0 == i;
                assert(outs[k].1 == a.grid_cont@[outs[k].0 as int]@[a.w - 1]@[0]);
            }
        }
        assert(back.out_cont_idx@ =~= a.out_cont_idx@);
        assert forall|i: int, j: int, k: int|
            0 <= i < a.h && 0 <= j < a.w && 0 <= k < 2 implies #[trigger] back.grid_cont@[i]@[j]@[k]
            == a.grid_cont@[i]@[j]@[k] by {
            assert(had.grid_cont@[i]@[j]@[k] == b.grid_cont@[i]@[j]@[k]);
        }
        assert forall|t: int| 0 <= t <= TURN implies (#[trigger] back.out_cont_turn@[t])@
            == a.out_cont_turn@[t]@ by {
            if t == a.turn {
                assert(back.out_cont_turn@[t]@ =~= a.out_cont_turn@[t]@);
            } else {
                assert(had.out_cont_turn@[t]@ == b.out_cont_turn@[t]@);
                assert(b.out_cont_turn@[t] == a.out_cont_turn@[t]);
            }
        }
        assert forall|t: int| 0 <= t <= TURN implies (#[trigger] back.incoming_cont_turn@[t])@
            == a.incoming_cont_turn@[t]@ by {
            assert(had.incoming_cont_turn@[t]@ == b.incoming_cont_turn@[t]@);
        }
    }
}

/// Taking an operation back gives the state before it. If operation `op` is
/// open to the crane whose turn it is in the terminal `t0`, `t1` is the next
/// state by `op`, and `t2` is what taking `op` back makes of `t1`, then `t2`
/// holds what `t0` held in every field; only the crane may have codes for
/// more keys.
pub proof fn revert_gives_back(t0: Terminal, t1: Terminal, t2: Terminal, op: int)
    requires
        t0.ok(),
        t0.crew_ok(),
        t0.open_to(op),
        t0.applied(&t1, op),
        t1.reverted(&t2, op),
    ensures
        t0.same_state(&t2),
{
    let (a, b, c) = choose|a: Terminal, b: Terminal, c: Terminal|
        #![trigger t0.acted(&a, op), a.let_out(&b), b.let_in(&c)]
        t0.acted(&a, op) && a.let_out(&b) && b.let_in(&c) && t1 == (Terminal {
            turn: (c.turn + 1) as usize,
            score: t1.score,
            ..c
        });
    let was = Terminal { turn: (t1.turn - 1) as usize, ..t1 };
    let (a2, b2, c2) = choose|a2: Terminal, b2: Terminal, c2: Terminal|
        #![trigger a2.took_out_back(&b2), b2.took_back(&c2, op)]
        was.took_in_back(&a2) && a2.took_out_back(&b2) && b2.took_back(&c2, op) && t2 == (Terminal {
            score: t2.score,
            ..c2
        });
    let m = t0.turn as int % USING_CRANE as int;
    assert(a.ok()) by {
        lemma_acted_ok(t0, a, op);
    }
    assert(was == (Terminal { score: was.score, ..c }));
    Terminal::lemma_in_and_back(b, c, was, a2);
    Terminal::lemma_out_and_back(a, b, a2, b2);
    Crane::take_back_undoes(
        t0.cranes@[m],
        a.cranes@[m],
        c2.cranes@[m],
        op,
        t0.grid_crane@,
        a.grid_crane@,
        c2.grid_crane@,
        t0.grid_cont@,
        a.grid_cont@,
        b2.grid_cont@,
        c2.grid_cont@,
        t0.cont_suspended@,
        a.cont_suspended@,
        c2.cont_suspended@,
    );
    assert(t2.incoming_cont_idx@ == t0.incoming_cont_idx@);
    assert(t2.conts@ == t0.conts@);
    lemma_cost_rows_same(t2.grid_cont@, t0.grid_cont@, t0.h as int, t0.h as int);
    assert(t2.eval() == t0.eval());
}

/// What the crane's operation leaves is a terminal in order.
pub proof fn lemma_acted_ok(t0: Terminal, a: Terminal, op: int)
    requires
        t0.ok(),
        t0.crew_ok(),
        0 <= op < OP_NUM,
        t0.mover().can(op, t0.grid_cont@),
        t0.acted(&a, op),
    ensures
        a.ok(),
        a.turn == t0.turn,
{
    let c0 = t0.mover();
    assert(t0.h * t0.w >= 1) by (nonlinear_arith)
        requires
            t0.h >= 1,
            t0.w == t0.h,
    ;
    assert forall|i: int, j: int, k: int|
        0 <= i < a.h && 0 <= j < a.w && 0 <= k < 2 implies (#[trigger] a.grid_cont@[i]@[j]@[k])
        < a.h * a.w by {
        assert(t0.grid_cont@[i]@[j]@[k] < t0.h * t0.w);
        assert(t0.grid_cont@[c0.x as int]@[c0.y as int]@[0] < t0.h * t0.w);
        assert(t0.grid_cont@[c0.x as int]@[c0.y as int]@[1] < t0.h * t0.w);
    }
}

/// The next state can be taken back: if operation `op` is open to the crane
/// whose turn it is in the terminal `t0`, whose cells hold containers or
/// nothing, and `t1` is the next state by `op`, then `op` can be taken back
/// from `t1`.
pub proof fn applied_can_revert(t0: Terminal, t1: Terminal, op: int)
    requires
        t0.ok(),
        t0.crew_ok(),
        t0.open_to(op),
        forall|i: int, j: int, k: int|
            0 <= i < t0.h && 0 <= j < t0.w && 0 <= k < 2 ==> #[trigger] t0.grid_cont@[i]@[j]@[k] >= -1,
        t0.applied(&t1, op),
    ensures
        t1.can_revert(op),
{
    let (a, b, c) = choose|a: Terminal, b: Terminal, c: Terminal|
        #![trigger t0.acted(&a, op), a.let_out(&b), b.let_in(&c)]
        t0.acted(&a, op) && a.let_out(&b) && b.let_in(&c) && t1 == (Terminal {
            turn: (c.turn + 1) as usize,
            score: t1.score,
            ..c
        });
    let was = Terminal { turn: (t1.turn - 1) as usize, ..t1 };
    lemma_acted_ok(t0, a, op);
    assert(was == (Terminal { score: was.score, ..c }));
    a.lemma_rows_out(a.h as int);
    b.lemma_rows_in(b.h as int);
    let ins = was.incoming_cont_turn@[was.turn as int]@;
    let outs = was.out_cont_turn@[was.turn as int]@;
    assert(ins =~= b.rows_in(b.h as int));
    assert(outs =~= a.rows_out(a.h as int));
    assert forall|k: int| 0 <= k < ins.len() implies (#[trigger] ins[k]) < was.h
        && was.incoming_cont_idx@[ins[k] as int] >= 1 by {
        assert(b.takes_in(ins[k] as int));
    }
    let c0 = t0.mover();
    assert forall|k: int| 0 <= k < outs.len() implies (#[trigger] outs[k]).0 < was.h && -1
        <= outs[k].1 < was.h * was.w && was.out_cont_idx@[outs[k].0 as int] >= 1 by {
        let i = outs[k].0 as int;
        assert(a.lets_out(i));
        assert(a.grid_cont@[i]@[a.w - 1]@[0] < a.h * a.w);
        assert(t0.grid_cont@[i]@[a.w - 1]@[0] >= -1);
        assert(t0.grid_cont@[i]@[a.w - 1]@[1] >= -1);
        assert(t0.grid_cont@[c0.x as int]@[c0.y as int]@[0] >= -1);
        assert(t0.grid_cont@[c0.x as int]@[c0.y as int]@[1] >= -1);
        assert(b.out_cont_idx@[outs[k].0 as int] == a.out_cont_idx@[outs[k].0 as int] + 1);
    }
    assert(was.can_undo());
}

} // verus!
