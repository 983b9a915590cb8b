//! The search for a plan of the terminal: a beam of sequences of operations
//! that starts with the empty one. In each round every sequence of the beam
//! is played from the opening of the terminal, and the crane whose turn it
//! is then is asked which operations are open; the candidates are ranked
//! and cut to the width of the beam, and each that is left extends the
//! sequence it came from.

use crate::crane::{layer, Crane, Input};
use crate::cut::{ordered, pick};
use crate::yard::yes_is_found_open;
use crate::ops::{OP_NUM, USING_CRANE};
use crate::alike::applied_alike;
use crate::terminal::{Cand, Terminal, TURN};
use crate::yard::{apply_keeps_settled, yard_ok};
use crate::yard::{cell_named, crane_stands};
use vstd::prelude::*;

verus! {

impl Terminal {
    /// This terminal is the opening of `input`: no turn is counted and
    /// nothing is noted; the first container of every row stands in the
    /// first cell of the row; the first cranes stand in the first cells of
    /// their rows and carry nothing; and every other crane has left the
    /// yard.
    pub open spec fn opens(&self, input: &Input) -> bool {
        let n = input.n as int;
        &&& self.ok()
        &&& self.crew_ok()
        &&& self.h == input.n
        &&& self.turn == 0
        &&& self.hash == 0
        &&& self.score == self.eval()
        &&& forall|i: int, j: int|
            0 <= i < n && 0 <= j < n ==> #[trigger] self.conts@[i]@[j] == input.a@[i]@[j]
        &&& forall|i: int| 0 <= i < n ==> #[trigger] self.out_cont_idx@[i] == i * n
        &&& forall|i: int| 0 <= i < n ==> #[trigger] self.incoming_cont_idx@[i] == 1
        &&& forall|i: int, j: int, k: int|
            0 <= i < n && 0 <= j < n && 0 <= k < 2 ==> #[trigger] self.grid_cont@[i]@[j]@[k] == (if j
                == 0 && k == 0 {
                input.a@[i]@[0]
            } else {
                -1i64
            })
        &&& forall|i: int, j: int|
            0 <= i < n && 0 <= j < n ==> #[trigger] self.grid_crane@[i]@[j] == (if j == 0 && i
                < USING_CRANE {
                i as isize
            } else {
                -1isize
            })
        &&& forall|i: int, j: int, k: int|
            0 <= i < n && 0 <= j < n && 0 <= k < 2 ==> !#[trigger] self.cont_suspended@[i]@[j]@[k]
        &&& forall|t: int| 0 <= t <= TURN ==> (#[trigger] self.out_cont_turn@[t])@.len() == 0
        &&& forall|t: int| 0 <= t <= TURN ==> (#[trigger] self.incoming_cont_turn@[t])@.len() == 0
        &&& self.cranes@.len() == n
        &&& forall|k: int|
            0 <= k < n ==> {
                let c = #[trigger] self.cranes@[k];
                &&& c.h == n && c.w == n
                &&& c.x == k && c.y == 0 && c.idx == k
                &&& c.big == (k == 0)
                &&& !c.suspended
                &&& c.exploded == (k >= USING_CRANE)
                &&& c.pre_op == (if k >= USING_CRANE {
                    7usize
                } else {
                    6usize
                })
            }
    }

    /// An opening is settled.
    pub proof fn opening_settled(&self, input: &Input)
        requires
            input.ok(),
            self.opens(input),
        ensures
            self.settled(),
    {
        let n = input.n as int;
        assert forall|k: int| 0 <= k < self.cranes@.len() implies crane_stands(
            #[trigger] self.cranes@[k],
            k,
            self.grid_crane@,
            self.grid_cont@,
            self.cont_suspended@,
        ) by {
            let c = self.cranes@[k];
            let here = self.grid_crane@[k]@[0];
            let f0 = self.cont_suspended@[k]@[0]@[0];
            let f1 = self.cont_suspended@[k]@[0]@[1];
        }
        assert forall|i: int, j: int| 0 <= i < n && 0 <= j < n && (#[trigger] self.grid_crane@[i]@[j])
            != -1 implies cell_named(self.cranes@, self.grid_crane@, i, j) by {
            let c = self.cranes@[i];
        }
    }

    /// Two openings of the same input hold the same yard.
    pub proof fn openings_alike(&self, o: &Terminal, input: &Input)
        requires
            input.ok(),
            self.opens(input),
            o.opens(input),
        ensures
            self.alike(o),
    {
        let n = input.n as int;
        assert forall|i: int| 0 <= i < n implies #[trigger] o.out_cont_idx@[i]
            == self.out_cont_idx@[i] by {}
        assert(o.out_cont_idx@ =~= self.out_cont_idx@);
        assert forall|i: int| 0 <= i < n implies #[trigger] o.incoming_cont_idx@[i]
            == self.incoming_cont_idx@[i] by {}
        assert(o.incoming_cont_idx@ =~= self.incoming_cont_idx@);
        assert forall|t: int| 0 <= t <= TURN implies (#[trigger] o.out_cont_turn@[t])@
            == self.out_cont_turn@[t]@ by {
            assert(o.out_cont_turn@[t]@ =~= self.out_cont_turn@[t]@);
        }
        assert forall|t: int| 0 <= t <= TURN implies (#[trigger] o.incoming_cont_turn@[t])@
            == self.incoming_cont_turn@[t]@ by {
            assert(o.incoming_cont_turn@[t]@ =~= self.incoming_cont_turn@[t]@);
        }
        assert forall|k: int| 0 <= k < self.cranes@.len() implies (#[trigger] self.cranes@[k]).alike(
            &o.cranes@[k],
        ) by {}
        crate::alike::eval_alike(*self, *o);
    }

    /// The opening of `input`: the terminal at the start with the first
    /// containers let in, nothing noted of that, and every crane that takes
    /// no part in the search off the yard.
    #[verifier::rlimit(80)]
    pub fn opening(input: &Input) -> (t: Terminal)
        requires
            input.ok(),
            input.n >= USING_CRANE,
        ensures
            t.opens(input),
            0 <= t.score <= 0x4000_0000_0000_0000,
    {
        let mut t = Terminal::new(input);
        let ghost fresh = t;
        t.prepare_cont();
        let ghost let_in = t;
        proof {
            assert forall|i: int| 0 <= i < input.n implies fresh.takes_in(i) by {
                let g0 = fresh.grid_cont@[i]@[0]@[0];
                let g1 = fresh.grid_cont@[i]@[0]@[1];
                let idx = fresh.incoming_cont_idx@[i];
            }
        }
        t.incoming_cont_turn[0].clear();
        let n = t.cranes.len();
        let mut i: usize = USING_CRANE;
        while i < n
            invariant
                USING_CRANE <= i <= n,
                n == input.n,
                input.ok(),
                t.ok(),
                t.h == input.n,
                t.turn == 0,
                t.hash == 0,
                t.conts == let_in.conts,
                t.out_cont_idx == let_in.out_cont_idx,
                t.incoming_cont_idx == let_in.incoming_cont_idx,
                t.grid_cont == let_in.grid_cont,
                t.cont_suspended == let_in.cont_suspended,
                t.out_cont_turn == let_in.out_cont_turn,
                forall|q: int| 0 <= q <= TURN ==> (#[trigger] t.incoming_cont_turn@[q])@.len() == 0,
                t.cranes@.len() == n,
                forall|r: int, j: int|
                    0 <= r < n && 0 <= j < n ==> #[trigger] t.grid_crane@[r]@[j] == (if j == 0 && (r
                        < USING_CRANE || r >= i) {
                        r as isize
                    } else {
                        -1isize
                    }),
                forall|k: int|
                    0 <= k < n ==> {
                        let c = #[trigger] t.cranes@[k];
                        &&& c.placed()
                        &&& c.h == n && c.w == n
                        &&& c.x == k && c.y == 0 && c.idx == k
                        &&& c.big == (k == 0)
                        &&& !c.suspended
                        &&& c.exploded == (USING_CRANE <= k < i)
                        &&& c.pre_op == (if USING_CRANE <= k < i {
                            7usize
                        } else {
                            6usize
                        })
                    },
            decreases n - i,
        {
            t.cranes[i].explode(&t.grid_cont, &mut t.grid_crane);
            i = i + 1;
        }
        t.score = t.evaluate();
        t
    }
}

impl Terminal {
    /// The terminal is as the search keeps it: in order and settled, with
    /// its score, with the first cranes on the yard, and with rows that
    /// have counted no more leaving containers than turns have passed.
    pub open spec fn fit(&self) -> bool {
        &&& self.ok()
        &&& self.crew_ok()
        &&& self.settled()
        &&& self.score == self.eval()
        &&& forall|k: int| 0 <= k < USING_CRANE ==> !(#[trigger] self.cranes@[k]).exploded
        &&& forall|i: int| 0 <= i < self.h ==> (#[trigger] self.out_cont_idx@[i]) <= 64 + self.turn
    }

    /// The terminal is fit, a turn is left, and the crane whose turn it is
    /// finds operation `op` open.
    pub open spec fn fit_for(&self, op: int) -> bool {
        &&& self.fit()
        &&& self.turn < TURN
        &&& self.found_open(op)
    }

    /// What is fit for an operation takes it.
    pub proof fn fit_takes(&self, op: int)
        requires
            self.fit_for(op),
        ensures
            self.takes(op),
    {
        assert forall|i: int| 0 <= i < self.h implies (#[trigger] self.out_cont_idx@[i]) < 0x7fff_ffff by {}
    }

    /// The next state of a fit terminal by an operation it is fit for is
    /// fit.
    pub proof fn fit_next(&self, next: &Terminal, op: int)
        requires
            self.fit_for(op),
            self.applied(next, op),
        ensures
            next.fit(),
            next.turn == self.turn + 1,
    {
        let (a, b, c) = choose|a: Terminal, b: Terminal, c: Terminal|
            #![trigger self.acted(&a, op), a.let_out(&b), b.let_in(&c)]
            self.acted(&a, op) && a.let_out(&b) && b.let_in(&c) && *next == (Terminal {
                turn: (c.turn + 1) as usize,
                score: next.score,
                ..c
            });
        apply_keeps_settled(*self, *next, op);
        let m = self.turn as int % USING_CRANE as int;
        assert forall|k: int| 0 <= k < next.cranes@.len() implies {
            let cr = #[trigger] next.cranes@[k];
            cr.placed() && cr.h == next.h && cr.w == next.w
        } by {
            let was = self.cranes@[k];
            assert(was.placed());
        }
        assert forall|k: int| 0 <= k < USING_CRANE implies !(#[trigger] next.cranes@[k]).exploded by {
            let was = self.cranes@[k];
        }
        assert forall|i: int| 0 <= i < next.h implies (#[trigger] next.out_cont_idx@[i]) <= 64
            + next.turn by {
            let was = self.out_cont_idx@[i];
            let then = b.out_cont_idx@[i];
        }
    }

    /// A terminal that holds the yard of one that is fit for an operation
    /// is fit for it.
    pub proof fn fit_alike(&self, o: &Terminal, op: int)
        requires
            self.fit_for(op),
            o.ok(),
            o.crew_ok(),
            self.alike(o),
        ensures
            o.fit_for(op),
    {
        self.fit_takes(op);
        self.takes_alike(o, op);
        crate::alike::eval_alike(*self, *o);
        self.settled_alike(o);
        let m = self.turn as int % USING_CRANE as int;
        let c = self.cranes@[m];
        assert(c.alike(&o.cranes@[m]));
        let nx = c.x + crate::crane::dx_spec(op);
        let ny = c.y + crate::crane::dy_spec(op);
        if op < 4 {
            let there = o.grid_crane@[nx]@[ny];
            let ground = o.grid_cont@[nx]@[ny]@[0];
        }
        let here = o.grid_cont@[c.x as int]@[c.y as int]@[0];
        assert forall|k: int| 0 <= k < USING_CRANE implies !(#[trigger] o.cranes@[k]).exploded by {
            assert(self.cranes@[k].alike(&o.cranes@[k]));
        }
        assert forall|i: int| 0 <= i < o.h implies (#[trigger] o.out_cont_idx@[i]) <= 64 + o.turn by {
            let was = self.out_cont_idx@[i];
        }
    }

    /// A terminal that holds the yard of a settled one is settled.
    pub proof fn settled_alike(&self, o: &Terminal)
        requires
            self.ok(),
            self.crew_ok(),
            self.settled(),
            self.alike(o),
        ensures
            o.settled(),
    {
        let h = self.h as int;
        let w = self.w as int;
        let (gc0, g0, f0) = (self.grid_crane@, self.grid_cont@, self.cont_suspended@);
        let (gc2, g2, f2) = (o.grid_crane@, o.grid_cont@, o.cont_suspended@);
        assert forall|k: int| 0 <= k < o.cranes@.len() implies crane_stands(
            #[trigger] o.cranes@[k],
            k,
            gc2,
            g2,
            f2,
        ) by {
            let a = self.cranes@[k];
            let b = o.cranes@[k];
            assert(crane_stands(a, k, gc0, g0, f0));
            assert(a.alike(&b));
            let here = gc2[a.x as int]@[a.y as int];
            let flag0 = f2[a.x as int]@[a.y as int]@[0];
            let flag1 = f2[a.x as int]@[a.y as int]@[1];
            let c0 = g2[a.x as int]@[a.y as int]@[0];
            let c1 = g2[a.x as int]@[a.y as int]@[1];
        }
        assert forall|i: int, j: int| 0 <= i < h && 0 <= j < w && (#[trigger] gc2[i]@[j])
            != -1 implies cell_named(o.cranes@, gc2, i, j) by {
            assert(gc0[i]@[j] != -1);
            assert(cell_named(self.cranes@, gc0, i, j));
            let k = gc0[i]@[j] as int;
            assert(self.cranes@[k].alike(&o.cranes@[k]));
        }
        assert forall|i: int, j: int, q: int|
            0 <= i < h && 0 <= j < w && 0 <= q < 2 && #[trigger] f2[i]@[j]@[q] implies cell_named(
            o.cranes@,
            gc2,
            i,
            j,
        ) && o.cranes@[gc2[i]@[j] as int].suspended && layer(o.cranes@[gc2[i]@[j] as int].big)
            == q by {
            assert(f0[i]@[j]@[q]);
            let named = gc2[i]@[j];
            assert(cell_named(self.cranes@, gc0, i, j));
            let k = gc0[i]@[j] as int;
            assert(self.cranes@[k].alike(&o.cranes@[k]));
        }
        assert forall|i: int, j: int| 0 <= i < h && 0 <= j < w && (#[trigger] g2[i]@[j]@[1])
            != -1 implies f2[i]@[j]@[1] by {
            let was = g0[i]@[j]@[1];
            let flag = f0[i]@[j]@[1];
        }
        assert forall|t: int| o.turn <= t <= TURN implies (#[trigger] o.out_cont_turn@[t])@.len()
            == 0 by {
            assert(self.out_cont_turn@[t]@.len() == 0);
        }
        assert forall|t: int| o.turn <= t <= TURN implies (#[trigger] o.incoming_cont_turn@[t])@.len()
            == 0 by {
            assert(self.incoming_cont_turn@[t]@.len() == 0);
        }
    }

    /// Holding the same yard goes both ways.
    pub proof fn alike_back(&self, o: &Terminal)
        requires
            self.alike(o),
        ensures
            o.alike(self),
    {
        assert forall|k: int| 0 <= k < o.cranes@.len() implies (#[trigger] o.cranes@[k]).alike(
            &self.cranes@[k],
        ) by {
            assert(self.cranes@[k].alike(&o.cranes@[k]));
        }
    }
}

/// The operations of `path` can be played from the terminal `t`, whatever
/// the cranes' codes make of it: `t` is fit for the first, and every next
/// state by it can play the rest.
pub open spec fn safe_from(t: Terminal, path: Seq<usize>) -> bool
    decreases path.len(),
{
    if path.len() == 0 {
        true
    } else {
        t.fit_for(path[0] as int) && forall|next: Terminal| #[trigger]
            t.applied(&next, path[0] as int) ==> safe_from(next, path.drop_first())
    }
}

/// Playing `path` from the terminal `from` has led to the terminal `to`.
pub open spec fn reached(from: Terminal, to: Terminal, path: Seq<usize>) -> bool
    decreases path.len(),
{
    if path.len() == 0 {
        to == from
    } else {
        exists|next: Terminal| #[trigger]
            from.applied(&next, path[0] as int) && reached(next, to, path.drop_first())
    }
}

/// The operations of `path` can be played from every opening of `input`.
pub open spec fn lines(input: &Input, path: Seq<usize>) -> bool {
    forall|u: Terminal| #[trigger] u.opens(input) ==> safe_from(u, path)
}

/// Where `path` has led from `from` to `to`, and `op` then to `next`, `path`
/// with `op` has led from `from` to `next`.
pub proof fn reached_on(from: Terminal, to: Terminal, next: Terminal, path: Seq<usize>, op: usize)
    requires
        reached(from, to, path),
        to.applied(&next, op as int),
    ensures
        reached(from, next, path.push(op)),
    decreases path.len(),
{
    let more = path.push(op);
    if path.len() == 0 {
        assert(more.drop_first() =~= Seq::<usize>::empty());
        assert(more[0] == op);
        assert(reached(next, next, more.drop_first()));
        assert(from.applied(&next, more[0] as int) && reached(next, next, more.drop_first()));
    } else {
        let mid = choose|mid: Terminal| #[trigger]
            from.applied(&mid, path[0] as int) && reached(mid, to, path.drop_first());
        reached_on(mid, to, next, path.drop_first(), op);
        assert(more.drop_first() =~= path.drop_first().push(op));
        assert(more[0] == path[0]);
        assert(from.applied(&mid, more[0] as int) && reached(mid, next, more.drop_first()));
    }
}

/// A path that can be played goes on by an operation that the terminal it
/// leads to is fit for: if `path` can be played from `u`, has led from a
/// terminal `w` that holds the yard of `u` to `to`, and `to` is fit for
/// `op`, then `path` with `op` can be played from `u`.
pub proof fn safe_on(u: Terminal, w: Terminal, to: Terminal, path: Seq<usize>, op: usize)
    requires
        u.ok(),
        u.crew_ok(),
        w.ok(),
        w.crew_ok(),
        u.alike(&w),
        safe_from(u, path),
        reached(w, to, path),
        to.fit_for(op as int),
    ensures
        safe_from(u, path.push(op)),
    decreases path.len(),
{
    let more = path.push(op);
    if path.len() == 0 {
        w.alike_back(&u);
        to.fit_alike(&u, op as int);
        assert(more[0] == op);
        assert(more.drop_first() =~= Seq::<usize>::empty());
        assert forall|next: Terminal| #[trigger] u.applied(&next, more[0] as int) implies safe_from(
            next,
            more.drop_first(),
        ) by {}
    } else {
        let p0 = path[0];
        let rest = path.drop_first();
        let mid = choose|mid: Terminal| #[trigger]
            w.applied(&mid, p0 as int) && reached(mid, to, rest);
        u.fit_alike(&w, p0 as int);
        u.fit_takes(p0 as int);
        w.fit_takes(p0 as int);
        w.fit_next(&mid, p0 as int);
        assert(more[0] == p0);
        assert(more.drop_first() =~= rest.push(op));
        assert forall|next: Terminal| #[trigger] u.applied(&next, more[0] as int) implies safe_from(
            next,
            more.drop_first(),
        ) by {
            applied_alike(u, w, next, mid, p0 as int);
            u.fit_next(&next, p0 as int);
            safe_on(next, mid, to, rest, op);
        }
    }
}

/// Every candidate among the first `n` operations stands for an operation
/// that the crane found open.
pub proof fn picks_are_open(t: Terminal, idx: usize, rs: Seq<bool>, n: int, k: int)
    requires
        0 <= n <= rs.len(),
        n <= OP_NUM,
        0 <= k < t.picks(idx, rs, n).len(),
    ensures
        t.picks(idx, rs, n)[k].parent == idx,
        0 <= t.picks(idx, rs, n)[k].op < n,
        rs[t.picks(idx, rs, n)[k].op as int],
    decreases n,
{
    if n > 0 {
        let less = t.picks(idx, rs, n - 1);
        if k < less.len() {
            picks_are_open(t, idx, rs, n - 1, k);
            if rs[n - 1] {
                assert(t.picks(idx, rs, n)[k] == less[k]);
            }
        } else {
            assert(rs[n - 1]);
            assert(t.picks(idx, rs, n)[k] == t.cand_for(idx, n - 1));
            assert(t.cand_for(idx, n - 1).op == n - 1);
        }
    }
}

/// A copy of `path`.
pub fn copy(path: &Vec<usize>) -> (r: Vec<usize>)
    ensures
        r@ == path@,
{
    let mut r: Vec<usize> = Vec::new();
    let mut k: usize = 0;
    while k < path.len()
        invariant
            k <= path.len(),
            r@ == path@.subrange(0, k as int),
        decreases path.len() - k,
    {
        r.push(path[k]);
        proof {
            assert(path@.subrange(0, k as int).push(path@[k as int]) =~= path@.subrange(0, k as int + 1));
        }
        k = k + 1;
    }
    proof {
        assert(path@.subrange(0, path@.len() as int) =~= path@);
    }
    r
}

/// Plays `path` from the opening of `input`, and returns the terminal that
/// it leads to.
pub fn play(input: &Input, path: &Vec<usize>) -> (t: Terminal)
    requires
        input.ok(),
        input.n >= USING_CRANE,
        lines(input, path@),
    ensures
        t.fit(),
        t.turn == path@.len(),
        0 <= t.score <= 0x4000_0000_0000_0000,
        exists|w: Terminal| #[trigger] w.opens(input) && reached(w, t, path@),
{
    let mut t = Terminal::opening(input);
    let ghost w = t;
    proof {
        t.opening_settled(input);
        assert forall|i: int| 0 <= i < t.h implies (#[trigger] t.out_cont_idx@[i]) <= 64 + t.turn by {
            assert(i * input.n <= 64) by (nonlinear_arith)
                requires
                    0 <= i < input.n,
                    input.n <= 8,
            ;
        }
        assert(path@.subrange(0, path@.len() as int) =~= path@);
        assert(safe_from(w, path@));
    }
    let mut k: usize = 0;
    while k < path.len()
        invariant
            k <= path.len(),
            w.opens(input),
            t.fit(),
            t.turn == k,
            0 <= t.score <= 0x4000_0000_0000_0000,
            reached(w, t, path@.subrange(0, k as int)),
            safe_from(t, path@.subrange(k as int, path@.len() as int)),
        decreases path.len() - k,
    {
        let op = path[k];
        let ghost rest = path@.subrange(k as int, path@.len() as int);
        let ghost before = t;
        proof {
            assert(rest[0] == op);
            assert(t.fit_for(op as int));
            t.fit_takes(op as int);
        }
        t.apply(op);
        proof {
            assert(before.applied(&t, op as int));
            assert(safe_from(t, rest.drop_first()));
            before.fit_next(&t, op as int);
            reached_on(w, before, t, path@.subrange(0, k as int), op);
            assert(path@.subrange(0, k as int).push(op) =~= path@.subrange(0, k as int + 1));
            assert(rest.drop_first() =~= path@.subrange(k as int + 1, path@.len() as int));
        }
        k = k + 1;
    }
    proof {
        assert(path@.subrange(0, path@.len() as int) =~= path@);
    }
    t
}

/// Plays `path` from the opening of `input`, asks the crane whose turn it
/// is then which operations are open, and appends a candidate for each, in
/// the order of their numbers, with `idx` as its parent. Each candidate
/// stands for an operation by which `path` can be played on.
pub fn harvest(input: &Input, path: &Vec<usize>, idx: usize, cands: &mut Vec<Cand>)
    requires
        input.ok(),
        input.n >= USING_CRANE,
        lines(input, path@),
        path@.len() < TURN,
    ensures
        exists|got: Seq<Cand>| #[trigger]
            gives(input, path@, idx as int, got) && final(cands)@ == old(cands)@ + got,
        final(cands)@.len() >= old(cands)@.len(),
        forall|k: int| 0 <= k < old(cands)@.len() ==> #[trigger] final(cands)@[k] == old(cands)@[k],
        forall|k: int|
            old(cands)@.len() <= k < final(cands)@.len() ==> {
                let c = #[trigger] final(cands)@[k];
                &&& c.parent == idx
                &&& c.op < OP_NUM
                &&& lines(input, path@.push(c.op))
            },
{
    let mut t = play(input, path);
    let ghost reached_here = t;
    let ghost w = choose|w: Terminal| #[trigger] w.opens(input) && reached(w, reached_here, path@);
    let ghost had = cands@;
    proof {
        let m = t.turn as int % USING_CRANE as int;
        assert(crane_stands(
            t.cranes@[m],
            m,
            t.grid_crane@,
            t.grid_cont@,
            t.cont_suspended@,
        ));
        assert(!t.cranes@[m].exploded);
    }
    t.append_cands(idx, cands);
    proof {
        let (cs, rs) = choose|cs: Seq<Crane>, rs: Seq<bool>| #[trigger]
            reached_here.went_round(cs, rs, OP_NUM as int) && t.mover() == cs[OP_NUM as int]
                && cands@ == had + reached_here.picks(idx, rs, OP_NUM as int);
        let added = reached_here.picks(idx, rs, OP_NUM as int);
        assert(reached_here.went_round(cs, rs, OP_NUM as int) && w.opens(input) && reached(
            w,
            reached_here,
            path@,
        ) && added == reached_here.picks((idx as int) as usize, rs, OP_NUM as int));
        assert(gives(input, path@, idx as int, added) && cands@ == had + added);
        assert forall|k: int| had.len() <= k < cands@.len() implies {
            let c = #[trigger] cands@[k];
            &&& c.parent == idx
            &&& c.op < OP_NUM
            &&& lines(input, path@.push(c.op))
        } by {
            let c = cands@[k];
            assert(c == added[k - had.len()]);
            picks_are_open(reached_here, idx, rs, OP_NUM as int, k - had.len());
            yes_is_found_open(reached_here, cs, rs, c.op as int);
            assert(reached_here.fit_for(c.op as int));
            assert forall|u: Terminal| #[trigger] u.opens(input) implies safe_from(
                u,
                path@.push(c.op),
            ) by {
                u.openings_alike(&w, input);
                safe_on(u, w, reached_here, path@, c.op);
            }
        }
    }
}

/// The candidates of the first `n` of `parts`, one part after the other.
pub open spec fn joined(parts: Seq<Seq<Cand>>, n: int) -> Seq<Cand>
    decreases n,
{
    if n <= 0 {
        Seq::empty()
    } else {
        joined(parts, n - 1) + parts[n - 1]
    }
}

/// The candidates of the first `n` parts depend on those parts only.
pub proof fn joined_same(parts: Seq<Seq<Cand>>, more: Seq<Seq<Cand>>, n: int)
    requires
        0 <= n <= parts.len() <= more.len(),
        forall|i: int| 0 <= i < n ==> parts[i] == more[i],
    ensures
        joined(parts, n) == joined(more, n),
    decreases n,
{
    if n > 0 {
        joined_same(parts, more, n - 1);
    }
}

/// `parts` holds, for each of the first `n` sequences of `beam`, the
/// candidates that it gives.
pub open spec fn parts_ok(input: &Input, beam: Seq<Vec<usize>>, n: int, parts: Seq<Seq<Cand>>) -> bool {
    &&& parts.len() == n
    &&& forall|i: int| 0 <= i < n ==> gives(input, beam[i]@, i, #[trigger] parts[i])
}

/// `cands` are the candidates that the first `n` sequences of `beam` give,
/// one sequence after the other.
pub open spec fn harvested(input: &Input, beam: Seq<Vec<usize>>, n: int, cands: Seq<Cand>) -> bool {
    exists|parts: Seq<Seq<Cand>>| #[trigger]
        parts_ok(input, beam, n, parts) && cands == joined(parts, n)
}

/// `got` are the candidates that the sequence `path`, number `idx` of a
/// beam, gives: it has led from an opening to a terminal, the crane whose
/// turn it is there went round the operations, and `got` has a candidate
/// for each that it found open.
pub open spec fn gives(input: &Input, path: Seq<usize>, idx: int, got: Seq<Cand>) -> bool {
    exists|w: Terminal, t: Terminal, cs: Seq<Crane>, rs: Seq<bool>|
        #![trigger t.went_round(cs, rs, OP_NUM as int), reached(w, t, path)]
        t.went_round(cs, rs, OP_NUM as int) && w.opens(input) && reached(w, t, path) && got
            == t.picks(idx as usize, rs, OP_NUM as int)
}

/// Every sequence of `beam` has `round` operations and can be played from
/// every opening of `input`.
pub open spec fn beam_ok(input: &Input, beam: Seq<Vec<usize>>, round: int) -> bool {
    &&& beam.len() >= 1
    &&& forall|i: int|
        0 <= i < beam.len() ==> (#[trigger] beam[i])@.len() == round && lines(input, beam[i]@)
    &&& forall|i: int, k: int|
        0 <= i < beam.len() && 0 <= k < beam[i]@.len() ==> (#[trigger] beam[i]@[k]) < OP_NUM
}

/// `next` is the beam that the candidates `top` make of `beam`: each extends
/// the sequence it came from by its operation.
pub open spec fn extended(beam: Seq<Vec<usize>>, top: Seq<Cand>, next: Seq<Vec<usize>>) -> bool {
    &&& next.len() == top.len()
    &&& forall|k: int|
        0 <= k < next.len() ==> (#[trigger] next[k])@ == beam[top[k].parent as int]@.push(top[k].op)
}

/// What a round makes of `beam`: `cands` are the candidates that the
/// sequences of the beam give, `ranked` holds them in the order `ord` of
/// the ranking, and `next` is the beam that the first `width` of them
/// extend; there is none where no candidate was found, and where the best
/// leads to the score 0.
pub open spec fn round_of(
    input: &Input,
    beam: Seq<Vec<usize>>,
    width: int,
    cands: Seq<Cand>,
    ranked: Seq<Cand>,
    ord: Seq<int>,
    next: Option<Seq<Vec<usize>>>,
) -> bool {
    let m = if width < cands.len() {
        width
    } else {
        cands.len() as int
    };
    &&& harvested(input, beam, beam.len() as int, cands)
    &&& ordered(cands, ranked, ord)
    &&& next is None <==> cands.len() == 0 || ranked[0].eval_score == 0
    &&& next matches Some(nb) ==> extended(beam, ranked.subrange(0, m), nb)
}

/// One round of the search: every sequence of the beam is played and gives
/// its candidates; they are ranked and cut to the width; and each that is
/// left extends the sequence it came from. There is no next beam when no
/// candidate was found, and when the best leads to the score 0.
pub fn round(input: &Input, beam: &Vec<Vec<usize>>, width: usize) -> (r: Option<Vec<Vec<usize>>>)
    requires
        input.ok(),
        input.n >= USING_CRANE,
        width > 0,
        beam@.len() >= 1,
        beam@[0]@.len() < TURN,
        beam_ok(input, beam@, beam@[0]@.len() as int),
    ensures
        r is None ==> exists|cands: Seq<Cand>, ranked: Seq<Cand>, ord: Seq<int>| #[trigger]
            round_of(input, beam@, width as int, cands, ranked, ord, None),
        r is Some ==> exists|cands: Seq<Cand>, ranked: Seq<Cand>, ord: Seq<int>| #[trigger]
            round_of(input, beam@, width as int, cands, ranked, ord, Some(r->Some_0@)),
        r matches Some(next) ==> beam_ok(input, next@, beam@[0]@.len() as int + 1),
{
    let ghost turn = beam@[0]@.len() as int;
    let ghost mut parts: Seq<Seq<Cand>> = Seq::empty();
    let mut cands: Vec<Cand> = Vec::new();
    let mut i: usize = 0;
    while i < beam.len()
        invariant
            i <= beam@.len(),
            turn < TURN,
            input.ok(),
            input.n >= USING_CRANE,
            beam_ok(input, beam@, turn),
            parts_ok(input, beam@, i as int, parts),
            cands@ == joined(parts, i as int),
            forall|k: int|
                0 <= k < cands@.len() ==> {
                    let c = #[trigger] cands@[k];
                    &&& c.parent < beam@.len()
                    &&& c.op < OP_NUM
                    &&& lines(input, beam@[c.parent as int]@.push(c.op))
                },
        decreases beam@.len() - i,
    {
        let ghost less = cands@;
        harvest(input, &beam[i], i, &mut cands);
        proof {
            let got = choose|got: Seq<Cand>| #[trigger]
                gives(input, beam@[i as int]@, i as int, got) && cands@ == less + got;
            let more = parts.push(got);
            joined_same(parts, more, i as int);
            assert(more[i as int] == got);
            assert forall|q: int| 0 <= q < i + 1 implies gives(
                input,
                beam@[q]@,
                q,
                #[trigger] more[q],
            ) by {
                if q < i {
                    assert(more[q] == parts[q]);
                }
            }
            parts = more;
        }
        i = i + 1;
    }
    let ghost all_cands = cands@;
    proof {
        assert(parts_ok(input, beam@, beam@.len() as int, parts) && all_cands == joined(
            parts,
            beam@.len() as int,
        ));
        assert(harvested(input, beam@, beam@.len() as int, all_cands));
    }
    if cands.len() == 0 {
        proof {
            let none = Seq::<int>::empty();
            assert(ordered(all_cands, all_cands, none));
            assert(round_of(input, beam@, width as int, all_cands, all_cands, none, None));
        }
        return None;
    }
    let (top, done) = pick(cands, width);
    let ghost (ranked, ord) = choose|ranked: Seq<Cand>, ord: Seq<int>| #[trigger]
        ordered(all_cands, ranked, ord) && top@ == ranked.subrange(0, top@.len() as int);
    proof {
        assert(top@[0] == ranked.subrange(0, top@.len() as int)[0]);
    }
    if done {
        proof {
            assert(round_of(input, beam@, width as int, all_cands, ranked, ord, None));
        }
        return None;
    }
    let mut next: Vec<Vec<usize>> = Vec::new();
    let mut k: usize = 0;
    while k < top.len()
        invariant
            k <= top@.len(),
            top@.len() >= 1,
            turn < TURN,
            next@.len() == k,
            ordered(all_cands, ranked, ord),
            top@.len() <= ranked.len(),
            top@ == ranked.subrange(0, top@.len() as int),
            beam_ok(input, beam@, turn),
            forall|q: int|
                0 <= q < all_cands.len() ==> {
                    let c = #[trigger] all_cands[q];
                    &&& c.parent < beam@.len()
                    &&& c.op < OP_NUM
                    &&& lines(input, beam@[c.parent as int]@.push(c.op))
                },
            forall|i: int|
                0 <= i < next@.len() ==> (#[trigger] next@[i])@ == beam@[top@[i].parent as int]@.push(
                    top@[i].op,
                ) && lines(input, next@[i]@),
            forall|i: int, q: int|
                0 <= i < next@.len() && 0 <= q < next@[i]@.len() ==> (#[trigger] next@[i]@[q]) < OP_NUM,
        decreases top@.len() - k,
    {
        let c = top[k];
        proof {
            assert(top@[k as int] == ranked.subrange(0, top@.len() as int)[k as int]);
            assert(top@[k as int] == ranked[k as int]);
            assert(0 <= ord[k as int] < all_cands.len());
            assert(ranked[k as int] == all_cands[ord[k as int]]);
            assert(c == all_cands[ord[k as int]]);
        }
        let mut path = copy(&beam[c.parent]);
        path.push(c.op);
        next.push(path);
        k = k + 1;
    }
    let ghost made = next@;
    let r = Some(next);
    proof {
        assert(extended(beam@, top@, made));
        assert(r->Some_0@ == made);
        assert(round_of(input, beam@, width as int, all_cands, ranked, ord, Some(made)));
        assert(round_of(input, beam@, width as int, all_cands, ranked, ord, Some(r->Some_0@)));
    }
    r
}

/// A round has made the beam `next` of the beam `beam`.
pub open spec fn went_on(input: &Input, beam: Seq<Vec<usize>>, width: int, next: Seq<Vec<usize>>) -> bool {
    exists|cands: Seq<Cand>, ranked: Seq<Cand>, ord: Seq<int>| #[trigger]
        round_of(input, beam, width, cands, ranked, ord, Some(next))
}

/// A round has made no next beam of the beam `beam`.
pub open spec fn ended(input: &Input, beam: Seq<Vec<usize>>, width: int) -> bool {
    exists|cands: Seq<Cand>, ranked: Seq<Cand>, ord: Seq<int>| #[trigger]
        round_of(input, beam, width, cands, ranked, ord, None)
}

/// `beams` are the beams of a search, round after round: the first holds
/// the empty sequence alone, and a round has made each of the one before.
pub open spec fn rounds_of(input: &Input, width: int, beams: Seq<Seq<Vec<usize>>>) -> bool {
    &&& beams.len() >= 1
    &&& beams[0].len() == 1
    &&& beams[0][0]@.len() == 0
    &&& forall|k: int|
        0 <= k < beams.len() - 1 ==> went_on(input, #[trigger] beams[k], width, beams[k + 1])
}

/// Searches for a plan of the terminal of `input` with a beam of width
/// `width` in `rounds` rounds at most, from the beam of the empty sequence
/// on. The search ends with the first round that makes no next beam. The
/// plan is the first sequence of the last beam: it can be played from the
/// opening, and has an operation for each round that made a beam.
pub fn search(input: &Input, width: usize, rounds: usize) -> (r: Vec<usize>)
    requires
        input.ok(),
        input.n >= USING_CRANE,
        width > 0,
        rounds <= TURN,
    ensures
        lines(input, r@),
        r@.len() <= rounds,
        forall|k: int| 0 <= k < r@.len() ==> #[trigger] r@[k] < OP_NUM,
        exists|beams: Seq<Seq<Vec<usize>>>| #[trigger]
            rounds_of(input, width as int, beams) && beams.len() == r@.len() + 1 && r@
                == beams.last()[0]@ && (r@.len() == rounds || ended(
                input,
                beams.last(),
                width as int,
            )),
{
    let mut beam: Vec<Vec<usize>> = Vec::new();
    beam.push(Vec::new());
    let mut turn: usize = 0;
    let mut stop = false;
    let ghost mut beams: Seq<Seq<Vec<usize>>> = Seq::empty().push(beam@);
    while turn < rounds && !stop
        invariant
            turn <= rounds <= TURN,
            input.ok(),
            input.n >= USING_CRANE,
            width > 0,
            beam_ok(input, beam@, turn as int),
            rounds_of(input, width as int, beams),
            beams.len() == turn + 1,
            beams.last() == beam@,
            stop ==> ended(input, beam@, width as int),
        decreases rounds - turn + (if stop {
                0int
            } else {
                1int
            }),
    {
        match round(input, &beam, width) {
            None => {
                stop = true;
            },
            Some(next) => {
                proof {
                    let more = beams.push(next@);
                    assert(went_on(input, beam@, width as int, next@));
                    assert forall|k: int| 0 <= k < more.len() - 1 implies went_on(
                        input,
                        #[trigger] more[k],
                        width as int,
                        more[k + 1],
                    ) by {
                        if k < beams.len() - 1 {
                            assert(more[k] == beams[k] && more[k + 1] == beams[k + 1]);
                        }
                    }
                    beams = more;
                }
                beam = next;
                turn = turn + 1;
            },
        }
    }
    copy(&beam[0])
}

} // verus!
