//! Terminals that hold the same yard: what an operation makes of the yard
//! depends on the yard alone, not on the codes and fingerprints of the
//! cranes.

use crate::crane::Crane;
use crate::inverse::lemma_cost_rows_same;
use crate::ops::{OP_NUM, USING_CRANE};
use crate::terminal::{Terminal, TURN};
use vstd::prelude::*;

verus! {

impl Crane {
    /// `o` stands and carries as this crane does, and has acted last as it
    /// has.
    pub open spec fn alike(&self, o: &Crane) -> bool {
        &&& o.h == self.h
        &&& o.w == self.w
        &&& o.x == self.x
        &&& o.y == self.y
        &&& o.idx == self.idx
        &&& o.suspended == self.suspended
        &&& o.big == self.big
        &&& o.exploded == self.exploded
        &&& o.pre_op == self.pre_op
    }
}

impl Terminal {
    /// `o` holds the same yard as this terminal: the same size, turn, score
    /// and fingerprint, the same containers to come and in every cell, the
    /// same crane and flag in every cell, the same counts and histories,
    /// and cranes that stand, carry and have acted alike.
    pub open spec fn alike(&self, o: &Terminal) -> bool {
        &&& o.h == self.h
        &&& o.w == self.w
        &&& o.turn == self.turn
        &&& o.hash == self.hash
        &&& o.score == self.score
        &&& o.conts@.len() == self.conts@.len()
        &&& forall|i: int, j: int|
            0 <= i < self.h && 0 <= j < self.w ==> #[trigger] o.conts@[i]@[j] == self.conts@[i]@[j]
        &&& o.out_cont_idx@ == self.out_cont_idx@
        &&& o.incoming_cont_idx@ == self.incoming_cont_idx@
        &&& forall|i: int, j: int, k: int|
            0 <= i < self.h && 0 <= j < self.w && 0 <= k < 2 ==> #[trigger] o.grid_cont@[i]@[j]@[k]
                == self.grid_cont@[i]@[j]@[k]
        &&& forall|i: int, j: int|
            0 <= i < self.h && 0 <= j < self.w ==> #[trigger] o.grid_crane@[i]@[j]
                == self.grid_crane@[i]@[j]
        &&& forall|i: int, j: int, k: int|
            0 <= i < self.h && 0 <= j < self.w && 0 <= k < 2
                ==> #[trigger] o.cont_suspended@[i]@[j]@[k] == self.cont_suspended@[i]@[j]@[k]
        &&& forall|t: int|
            0 <= t <= TURN ==> (#[trigger] o.out_cont_turn@[t])@ == self.out_cont_turn@[t]@
        &&& forall|t: int|
            0 <= t <= TURN ==> (#[trigger] o.incoming_cont_turn@[t])@ == self.incoming_cont_turn@[t]@
        &&& o.cranes@.len() == self.cranes@.len()
        &&& forall|k: int|
            0 <= k < self.cranes@.len() ==> (#[trigger] self.cranes@[k]).alike(&o.cranes@[k])
    }

    /// Operation `op` can be applied: the turn has a history, the crane
    /// whose turn it is can carry the operation out, and the rows can count
    /// one more container that leaves.
    pub open spec fn takes(&self, op: int) -> bool {
        &&& self.ok()
        &&& self.crew_ok()
        &&& self.turn < TURN
        &&& 0 <= op < OP_NUM
        &&& self.mover().can(op, self.grid_cont@)
        &&& forall|i: int| 0 <= i < self.h ==> (#[trigger] self.out_cont_idx@[i]) < 0x7fff_ffff
    }

    /// What can be applied to a terminal can be applied to one that holds
    /// the same yard.
    pub proof fn takes_alike(&self, o: &Terminal, op: int)
        requires
            self.takes(op),
            o.ok(),
            o.crew_ok(),
            self.alike(o),
        ensures
            o.takes(op),
    {
        let m = self.turn as int % USING_CRANE as int;
        let c = self.cranes@[m];
        assert(c.alike(&o.cranes@[m]));
        let ground = o.grid_cont@[c.x as int]@[c.y as int]@[0];
        let above = o.grid_cont@[c.x as int]@[c.y as int]@[1];
        assert forall|i: int| 0 <= i < o.h implies (#[trigger] o.out_cont_idx@[i]) < 0x7fff_ffff by {
            assert(self.out_cont_idx@[i] < 0x7fff_ffff);
        }
    }

    /// The rows that take a container in are the same on the same yard.
    pub proof fn lemma_rows_in_alike(&self, o: &Terminal, n: int)
        requires
            self.alike(o),
            0 <= n <= self.h,
            self.w >= 1,
        ensures
            self.rows_in(n) == o.rows_in(n),
        decreases n,
    {
        if n > 0 {
            self.lemma_rows_in_alike(o, n - 1);
            let g0 = o.grid_cont@[n - 1]@[0]@[0];
            let g1 = o.grid_cont@[n - 1]@[0]@[1];
            assert(self.takes_in(n - 1) == o.takes_in(n - 1));
        }
    }

    /// The containers that leave are the same on the same yard.
    pub proof fn lemma_rows_out_alike(&self, o: &Terminal, n: int)
        requires
            self.alike(o),
            0 <= n <= self.h,
            self.w >= 1,
        ensures
            self.rows_out(n) == o.rows_out(n),
        decreases n,
    {
        if n > 0 {
            self.lemma_rows_out_alike(o, n - 1);
            let g0 = o.grid_cont@[n - 1]@[self.w - 1]@[0];
            let f0 = o.cont_suspended@[n - 1]@[self.w - 1]@[0];
            assert(self.lets_out(n - 1) == o.lets_out(n - 1));
        }
    }
}

/// What the crane's operation makes of the same yard is the same yard.
pub proof fn acted_alike(t0: Terminal, u0: Terminal, t1: Terminal, u1: Terminal, op: int)
    requires
        t0.takes(op),
        u0.takes(op),
        t0.alike(&u0),
        t0.acted(&t1, op),
        u0.acted(&u1, op),
    ensures
        t1.alike(&u1),
{
    let m = t0.turn as int % USING_CRANE as int;
    let c = t0.cranes@[m];
    let d = u0.cranes@[m];
    assert(c.alike(&d));
    let x = c.x as int;
    let y = c.y as int;
    assert forall|i: int, j: int, k: int|
        0 <= i < t0.h && 0 <= j < t0.w && 0 <= k < 2 implies #[trigger] u1.grid_cont@[i]@[j]@[k]
        == t1.grid_cont@[i]@[j]@[k] by {
        let a = t0.grid_cont@[i]@[j]@[k];
        let b = u0.grid_cont@[i]@[j]@[k];
        let a2 = t0.grid_cont@[i]@[j]@[1 - k];
        let b2 = u0.grid_cont@[i]@[j]@[1 - k];
        let here0 = (t0.grid_cont@[x]@[y]@[0], u0.grid_cont@[x]@[y]@[0]);
        let here1 = (t0.grid_cont@[x]@[y]@[1], u0.grid_cont@[x]@[y]@[1]);
    }
    assert forall|i: int, j: int| 0 <= i < t0.h && 0 <= j < t0.w implies #[trigger] u1.grid_crane@[i]@[j]
        == t1.grid_crane@[i]@[j] by {
        let a = (t0.grid_crane@[i]@[j], u0.grid_crane@[i]@[j]);
    }
    assert forall|i: int, j: int, k: int|
        0 <= i < t0.h && 0 <= j < t0.w && 0 <= k < 2 implies #[trigger] u1.cont_suspended@[i]@[j]@[k]
        == t1.cont_suspended@[i]@[j]@[k] by {
        let a = (t0.cont_suspended@[i]@[j]@[k], u0.cont_suspended@[i]@[j]@[k]);
    }
    assert forall|k: int| 0 <= k < t1.cranes@.len() implies (#[trigger] t1.cranes@[k]).alike(
        &u1.cranes@[k],
    ) by {
        assert(t0.cranes@[k].alike(&u0.cranes@[k]));
    }
    assert forall|i: int, j: int| 0 <= i < t0.h && 0 <= j < t0.w implies #[trigger] u1.conts@[i]@[j]
        == t1.conts@[i]@[j] by {
        let a = (t0.conts@[i]@[j], u0.conts@[i]@[j]);
    }
    assert forall|t: int| 0 <= t <= TURN implies (#[trigger] u1.out_cont_turn@[t])@
        == t1.out_cont_turn@[t]@ by {
        let a = (t0.out_cont_turn@[t], u0.out_cont_turn@[t]);
    }
    assert forall|t: int| 0 <= t <= TURN implies (#[trigger] u1.incoming_cont_turn@[t])@
        == t1.incoming_cont_turn@[t]@ by {
        let a = (t0.incoming_cont_turn@[t], u0.incoming_cont_turn@[t]);
    }
}

/// The containers that leave the same yard leave the same yard behind.
pub proof fn out_alike(a: Terminal, a2: Terminal, b: Terminal, b2: Terminal)
    requires
        a.ok(),
        a2.ok(),
        a.alike(&a2),
        a.let_out(&b),
        a2.let_out(&b2),
    ensures
        b.alike(&b2),
{
    a.lemma_rows_out_alike(&a2, a.h as int);
    assert forall|i: int| 0 <= i < a.h implies a.lets_out(i) == a2.lets_out(i) by {
        let g0 = a2.grid_cont@[i]@[a.w - 1]@[0];
        let f0 = a2.cont_suspended@[i]@[a.w - 1]@[0];
    }
    assert forall|i: int| 0 <= i < a.h implies #[trigger] b2.out_cont_idx@[i] == b.out_cont_idx@[i] by {
        assert(a.lets_out(i) == a2.lets_out(i));
    }
    assert(b2.out_cont_idx@ =~= b.out_cont_idx@);
    assert forall|i: int, j: int, k: int|
        0 <= i < a.h && 0 <= j < a.w && 0 <= k < 2 implies #[trigger] b2.grid_cont@[i]@[j]@[k]
        == b.grid_cont@[i]@[j]@[k] by {
        let c = (a.grid_cont@[i]@[j]@[k], a2.grid_cont@[i]@[j]@[k]);
        assert(a.lets_out(i) == a2.lets_out(i));
    }
    assert forall|i: int, j: int| 0 <= i < a.h && 0 <= j < a.w implies #[trigger] b2.grid_crane@[i]@[j]
        == b.grid_crane@[i]@[j] by {
        let c = (a.grid_crane@[i]@[j], a2.grid_crane@[i]@[j]);
    }
    assert forall|i: int, j: int, k: int|
        0 <= i < a.h && 0 <= j < a.w && 0 <= k < 2 implies #[trigger] b2.cont_suspended@[i]@[j]@[k]
        == b.cont_suspended@[i]@[j]@[k] by {
        let c = (a.cont_suspended@[i]@[j]@[k], a2.cont_suspended@[i]@[j]@[k]);
    }
    assert forall|i: int, j: int| 0 <= i < a.h && 0 <= j < a.w implies #[trigger] b2.conts@[i]@[j]
        == b.conts@[i]@[j] by {
        let c = (a.conts@[i]@[j], a2.conts@[i]@[j]);
    }
    assert forall|t: int| 0 <= t <= TURN implies (#[trigger] b2.out_cont_turn@[t])@
        == b.out_cont_turn@[t]@ by {
        let c = (a.out_cont_turn@[t], a2.out_cont_turn@[t]);
    }
    assert forall|t: int| 0 <= t <= TURN implies (#[trigger] b2.incoming_cont_turn@[t])@
        == b.incoming_cont_turn@[t]@ by {
        let c = (a.incoming_cont_turn@[t], a2.incoming_cont_turn@[t]);
    }
    assert forall|k: int| 0 <= k < b.cranes@.len() implies (#[trigger] b.cranes@[k]).alike(
        &b2.cranes@[k],
    ) by {
        assert(a.cranes@[k].alike(&a2.cranes@[k]));
    }
}

/// The containers that come in on the same yard leave the same yard
/// behind.
pub proof fn in_alike(b: Terminal, b2: Terminal, c: Terminal, c2: Terminal)
    requires
        b.ok(),
        b2.ok(),
        b.alike(&b2),
        b.let_in(&c),
        b2.let_in(&c2),
    ensures
        c.alike(&c2),
{
    b.lemma_rows_in_alike(&b2, b.h as int);
    assert forall|i: int| 0 <= i < b.h implies b.takes_in(i) == b2.takes_in(i) by {
        let g0 = b2.grid_cont@[i]@[0]@[0];
        let g1 = b2.grid_cont@[i]@[0]@[1];
    }
    assert forall|i: int| 0 <= i < b.h implies #[trigger] c2.incoming_cont_idx@[i]
        == c.incoming_cont_idx@[i] by {
        assert(b.takes_in(i) == b2.takes_in(i));
    }
    assert(c2.incoming_cont_idx@ =~= c.incoming_cont_idx@);
    assert forall|i: int, j: int, k: int|
        0 <= i < b.h && 0 <= j < b.w && 0 <= k < 2 implies #[trigger] c2.grid_cont@[i]@[j]@[k]
        == c.grid_cont@[i]@[j]@[k] by {
        let e = (b.grid_cont@[i]@[j]@[k], b2.grid_cont@[i]@[j]@[k]);
        assert(b.takes_in(i) == b2.takes_in(i));
        if b.takes_in(i) {
            let next = b.incoming_cont_idx@[i] as int;
            assert(b2.conts@[i]@[next] == b.conts@[i]@[next]);
        }
    }
    assert forall|i: int, j: int| 0 <= i < b.h && 0 <= j < b.w implies #[trigger] c2.grid_crane@[i]@[j]
        == c.grid_crane@[i]@[j] by {
        let e = (b.grid_crane@[i]@[j], b2.grid_crane@[i]@[j]);
    }
    assert forall|i: int, j: int, k: int|
        0 <= i < b.h && 0 <= j < b.w && 0 <= k < 2 implies #[trigger] c2.cont_suspended@[i]@[j]@[k]
        == c.cont_suspended@[i]@[j]@[k] by {
        let e = (b.cont_suspended@[i]@[j]@[k], b2.cont_suspended@[i]@[j]@[k]);
    }
    assert forall|i: int, j: int| 0 <= i < b.h && 0 <= j < b.w implies #[trigger] c2.conts@[i]@[j]
        == c.conts@[i]@[j] by {
        let e = (b.conts@[i]@[j], b2.conts@[i]@[j]);
    }
    assert forall|t: int| 0 <= t <= TURN implies (#[trigger] c2.out_cont_turn@[t])@
        == c.out_cont_turn@[t]@ by {
        let e = (b.out_cont_turn@[t], b2.out_cont_turn@[t]);
    }
    assert forall|t: int| 0 <= t <= TURN implies (#[trigger] c2.incoming_cont_turn@[t])@
        == c.incoming_cont_turn@[t]@ by {
        let e = (b.incoming_cont_turn@[t], b2.incoming_cont_turn@[t]);
    }
    assert forall|k: int| 0 <= k < c.cranes@.len() implies (#[trigger] c.cranes@[k]).alike(
        &c2.cranes@[k],
    ) by {
        assert(b.cranes@[k].alike(&b2.cranes@[k]));
    }
}

/// The score is the same on the same yard.
pub proof fn eval_alike(t: Terminal, u: Terminal)
    requires
        t.ok(),
        u.ok(),
        (Terminal { score: u.score, ..t }).alike(&u),
    ensures
        t.eval() == u.eval(),
{
    lemma_cost_rows_same(t.grid_cont@, u.grid_cont@, t.h as int, t.h as int);
    crate::inverse::lemma_cost_lines_same(
        t.conts@,
        u.conts@,
        t.incoming_cont_idx@,
        t.h as int,
        t.h as int,
    );
}

/// The next state depends on the yard alone: what an operation makes of
/// two terminals that hold the same yard holds the same yard.
pub proof fn applied_alike(t0: Terminal, u0: Terminal, t1: Terminal, u1: Terminal, op: int)
    requires
        t0.takes(op),
        u0.takes(op),
        t0.alike(&u0),
        t0.applied(&t1, op),
        u0.applied(&u1, op),
    ensures
        t1.alike(&u1),
{
    let (a, b, c) = choose|a: Terminal, b: Terminal, c: Terminal|
        #![trigger t0.acted(&a, op), a.let_out(&b), b.let_in(&c)]
        t0.acted(&a, op) && a.let_out(&b) && b.let_in(&c) && t1 == (Terminal {
            turn: (c.turn + 1) as usize,
            score: t1.score,
            ..c
        });
    let (a2, b2, c2) = choose|a2: Terminal, b2: Terminal, c2: Terminal|
        #![trigger u0.acted(&a2, op), a2.let_out(&b2), b2.let_in(&c2)]
        u0.acted(&a2, op) && a2.let_out(&b2) && b2.let_in(&c2) && u1 == (Terminal {
            turn: (c2.turn + 1) as usize,
            score: u1.score,
            ..c2
        });
    acted_alike(t0, u0, a, a2, op);
    crate::inverse::lemma_acted_ok(t0, a, op);
    crate::inverse::lemma_acted_ok(u0, a2, op);
    out_alike(a, a2, b, b2);
    in_alike(b, b2, c, c2);
    assert(t1.ok() && u1.ok()) by {
        assert(c.ok() && c2.ok());
    }
    eval_alike(t1, u1);
}

} // verus!
