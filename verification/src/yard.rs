//! A yard that agrees with its cranes: every crane stands where the grid of
//! cranes says, the flags say which containers are held and by whom, and
//! only what the large crane holds is above the ground.

use crate::crane::{dx_spec, dy_spec, layer, Crane};
use crate::ops::{code_of, reverse_spec, OP_NUM};
use crate::inverse::revert_gives_back;
use crate::terminal::{Terminal, TURN};
use vstd::prelude::*;

verus! {

/// The crane `c` is number `k`, the large one if it is the first, and while
/// it is on the yard the grids show it in its cell, with the flag of its
/// layer saying whether it carries, and with a container there if it does.
pub open spec fn crane_stands(
    c: Crane,
    k: int,
    gc: Seq<Vec<isize>>,
    g: Seq<Vec<Vec<i64>>>,
    f: Seq<Vec<Vec<bool>>>,
) -> bool {
    &&& c.idx == k
    &&& c.big <==> k == 0
    &&& !c.exploded ==> {
        &&& gc[c.x as int]@[c.y as int] == k
        &&& f[c.x as int]@[c.y as int]@[layer(c.big)] == c.suspended
        &&& c.suspended ==> g[c.x as int]@[c.y as int]@[layer(c.big)] != -1
    }
}

/// The crane that the grid names in cell `(i, j)` stands there.
pub open spec fn cell_named(cranes: Seq<Crane>, gc: Seq<Vec<isize>>, i: int, j: int) -> bool {
    let k = gc[i]@[j] as int;
    &&& 0 <= k < cranes.len()
    &&& cranes[k].x == i
    &&& cranes[k].y == j
    &&& !cranes[k].exploded
}

/// The grids agree with the cranes: every crane stands as the grids say;
/// every crane that the grid names stands there; every container that is
/// flagged as held is held by the crane in its cell, on that crane's layer;
/// and a container above the ground is held.
pub open spec fn yard_ok(
    cranes: Seq<Crane>,
    h: int,
    w: int,
    gc: Seq<Vec<isize>>,
    g: Seq<Vec<Vec<i64>>>,
    f: Seq<Vec<Vec<bool>>>,
) -> bool {
    &&& forall|k: int| 0 <= k < cranes.len() ==> crane_stands(#[trigger] cranes[k], k, gc, g, f)
    &&& forall|i: int, j: int|
        0 <= i < h && 0 <= j < w && (#[trigger] gc[i]@[j]) != -1 ==> cell_named(cranes, gc, i, j)
    &&& forall|i: int, j: int, l: int|
        0 <= i < h && 0 <= j < w && 0 <= l < 2 && #[trigger] f[i]@[j]@[l] ==> cell_named(
            cranes,
            gc,
            i,
            j,
        ) && cranes[gc[i]@[j] as int].suspended && layer(cranes[gc[i]@[j] as int].big) == l
    &&& forall|i: int, j: int|
        0 <= i < h && 0 <= j < w && (#[trigger] g[i]@[j]@[1]) != -1 ==> f[i]@[j]@[1]
}

impl Terminal {
    /// The yard agrees with its cranes, and nothing is noted for the turns
    /// to come.
    pub open spec fn settled(&self) -> bool {
        &&& yard_ok(
            self.cranes@,
            self.h as int,
            self.w as int,
            self.grid_crane@,
            self.grid_cont@,
            self.cont_suspended@,
        )
        &&& forall|t: int| self.turn <= t <= TURN ==> (#[trigger] self.out_cont_turn@[t])@.len() == 0
        &&& forall|t: int|
            self.turn <= t <= TURN ==> (#[trigger] self.incoming_cont_turn@[t])@.len() == 0
    }

    /// The crane whose turn it is finds operation `op` open: what a yes of
    /// `action_ok` says of the crane and the grids.
    pub open spec fn found_open(&self, op: int) -> bool {
        let c = self.mover();
        let g = self.grid_cont@;
        let nx = c.x + dx_spec(op);
        let ny = c.y + dy_spec(op);
        &&& 0 <= op < OP_NUM
        &&& c.can(op, g)
        &&& op != 6 ==> !c.exploded
        &&& op < 4 ==> self.grid_crane@[nx]@[ny] == -1
        &&& op < 4 && c.suspended && !c.big ==> g[nx]@[ny]@[0] == -1
        &&& op == 4 ==> !c.suspended && g[c.x as int]@[c.y as int]@[0] != -1
        &&& op == 5 ==> c.suspended && (c.big ==> g[c.x as int]@[c.y as int]@[0] == -1)
    }

    /// On a settled yard, an operation that the crane finds open is open to
    /// it: nothing is in its way.
    pub proof fn settled_open(&self, op: int)
        requires
            self.ok(),
            self.crew_ok(),
            self.settled(),
            self.turn < TURN,
            self.found_open(op),
        ensures
            self.open_to(op),
    {
        let c = self.mover();
        let m = self.turn as int % 2;
        assert(crane_stands(self.cranes@[m], m, self.grid_crane@, self.grid_cont@, self.cont_suspended@));
        if op < 4 && c.suspended {
            let nx = c.x + dx_spec(op);
            let ny = c.y + dy_spec(op);
            let l = layer(c.big);
            if self.cont_suspended@[nx]@[ny]@[l] {
                assert(cell_named(self.cranes@, self.grid_crane@, nx, ny));
            }
            if c.big {
                let up = self.grid_cont@[nx]@[ny]@[1];
            }
        }
    }
}

/// The yard still agrees with its cranes after the crane whose turn it is
/// has carried out an operation that it found open.
pub proof fn acted_keeps_yard(t0: Terminal, a: Terminal, op: int)
    requires
        t0.ok(),
        t0.crew_ok(),
        yard_ok(
            t0.cranes@,
            t0.h as int,
            t0.w as int,
            t0.grid_crane@,
            t0.grid_cont@,
            t0.cont_suspended@,
        ),
        t0.found_open(op),
        t0.acted(&a, op),
    ensures
        yard_ok(a.cranes@, a.h as int, a.w as int, a.grid_crane@, a.grid_cont@, a.cont_suspended@),
{
    let m = t0.turn as int % 2;
    let c = t0.cranes@[m];
    let c1 = a.cranes@[m];
    let h = t0.h as int;
    let w = t0.w as int;
    let (gc0, g0, f0) = (t0.grid_crane@, t0.grid_cont@, t0.cont_suspended@);
    let (gc1, g1, f1) = (a.grid_crane@, a.grid_cont@, a.cont_suspended@);
    let l = layer(c.big);
    let x = c.x as int;
    let y = c.y as int;
    let nx = c1.x as int;
    let ny = c1.y as int;
    assert(crane_stands(c, m, gc0, g0, f0));
    if c.exploded {
        assert(op == 6);
    }
    assert forall|i: int, j: int| 0 <= i < h && 0 <= j < w && (i != x || j != y) && (i != nx || j
        != ny) implies gc1[i]@[j] == gc0[i]@[j] && f1[i]@[j]@[0] == f0[i]@[j]@[0] && f1[i]@[j]@[1]
        == f0[i]@[j]@[1] && g1[i]@[j]@[0] == g0[i]@[j]@[0] && g1[i]@[j]@[1] == g0[i]@[j]@[1] by {}
    if !c.exploded {
        // No flag of the other layer is set in the crane's own cell, and none
        // at all where it moves to.
        if f0[x]@[y]@[1 - l] {
            assert(cell_named(t0.cranes@, gc0, x, y));
        }
        if op < 4 {
            if f0[nx]@[ny]@[0] {
                assert(cell_named(t0.cranes@, gc0, nx, ny));
            }
            if f0[nx]@[ny]@[1] {
                assert(cell_named(t0.cranes@, gc0, nx, ny));
            }
            let up = g0[nx]@[ny]@[1];
        }
        let above = g0[x]@[y]@[1];
    }
    assert forall|k: int| 0 <= k < a.cranes@.len() implies crane_stands(
        #[trigger] a.cranes@[k],
        k,
        gc1,
        g1,
        f1,
    ) by {
        if k != m {
            let o = t0.cranes@[k];
            assert(a.cranes@[k] == o);
            assert(crane_stands(o, k, gc0, g0, f0));
            if !o.exploded && !c.exploded {
                assert(o.x != x || o.y != y);
                assert(o.x != nx || o.y != ny);
            }
        }
    }
    assert forall|i: int, j: int| 0 <= i < h && 0 <= j < w && (#[trigger] gc1[i]@[j])
        != -1 implies cell_named(a.cranes@, gc1, i, j) by {
        if !(i == nx && j == ny && !c.exploded) {
            assert(gc0[i]@[j] != -1);
            assert(cell_named(t0.cranes@, gc0, i, j));
            let k = gc0[i]@[j] as int;
            if k != m {
                assert(a.cranes@[k] == t0.cranes@[k]);
            }
        }
    }
    assert forall|i: int, j: int, q: int|
        0 <= i < h && 0 <= j < w && 0 <= q < 2 && #[trigger] f1[i]@[j]@[q] implies cell_named(
        a.cranes@,
        gc1,
        i,
        j,
    ) && a.cranes@[gc1[i]@[j] as int].suspended && layer(a.cranes@[gc1[i]@[j] as int].big)
        == q by {
        if !(i == nx && j == ny && q == l && !c.exploded) {
            assert(f0[i]@[j]@[q]);
            assert(cell_named(t0.cranes@, gc0, i, j));
            let k = gc0[i]@[j] as int;
            if k != m {
                assert(a.cranes@[k] == t0.cranes@[k]);
            }
        }
    }
    assert forall|i: int, j: int| 0 <= i < h && 0 <= j < w && (#[trigger] g1[i]@[j]@[1])
        != -1 implies f1[i]@[j]@[1] by {
        let was = g0[i]@[j]@[1];
        let on_ground = g0[i]@[j]@[0];
        if f0[i]@[j]@[1] {
            assert(cell_named(t0.cranes@, gc0, i, j));
        }
    }
}

/// The yard still agrees with its cranes when containers come and go on
/// the ground, as long as no container that is held there goes.
pub proof fn ground_keeps_yard(
    cranes: Seq<Crane>,
    h: int,
    w: int,
    gc: Seq<Vec<isize>>,
    g: Seq<Vec<Vec<i64>>>,
    g2: Seq<Vec<Vec<i64>>>,
    f: Seq<Vec<Vec<bool>>>,
)
    requires
        yard_ok(cranes, h, w, gc, g, f),
        forall|k: int|
            0 <= k < cranes.len() ==> 0 <= (#[trigger] cranes[k]).x < h && 0 <= cranes[k].y < w,
        forall|i: int, j: int| 0 <= i < h && 0 <= j < w ==> #[trigger] g2[i]@[j]@[1] == g[i]@[j]@[1],
        forall|i: int, j: int|
            0 <= i < h && 0 <= j < w && f[i]@[j]@[0] && g[i]@[j]@[0] != -1 ==> (
            #[trigger] g2[i]@[j]@[0]) != -1,
    ensures
        yard_ok(cranes, h, w, gc, g2, f),
{
    assert forall|k: int| 0 <= k < cranes.len() implies crane_stands(
        #[trigger] cranes[k],
        k,
        gc,
        g2,
        f,
    ) by {
        let c = cranes[k];
        assert(crane_stands(c, k, gc, g, f));
        let ground = g2[c.x as int]@[c.y as int]@[0];
        let above = g2[c.x as int]@[c.y as int]@[1];
    }
    assert forall|i: int, j: int| 0 <= i < h && 0 <= j < w && (#[trigger] g2[i]@[j]@[1])
        != -1 implies f[i]@[j]@[1] by {
        let was = g[i]@[j]@[1];
    }
}

/// The next state of a settled terminal by an operation that the crane
/// found open is settled.
pub proof fn apply_keeps_settled(t0: Terminal, t1: Terminal, op: int)
    requires
        t0.ok(),
        t0.crew_ok(),
        t0.settled(),
        t0.turn < TURN,
        t0.found_open(op),
        t0.applied(&t1, op),
    ensures
        t1.settled(),
{
    let (a, b, c) = choose|a: Terminal, b: Terminal, c: Terminal|
        #![trigger t0.acted(&a, op), a.let_out(&b), b.let_in(&c)]
        t0.acted(&a, op) && a.let_out(&b) && b.let_in(&c) && t1 == (Terminal {
            turn: (c.turn + 1) as usize,
            score: t1.score,
            ..c
        });
    let h = t0.h as int;
    let w = t0.w as int;
    acted_keeps_yard(t0, a, op);
    assert forall|k: int| 0 <= k < a.cranes@.len() implies 0 <= (#[trigger] a.cranes@[k]).x < h && 0
        <= a.cranes@[k].y < w by {
        let before = t0.cranes@[k];
    }
    assert forall|i: int, j: int| 0 <= i < h && 0 <= j < w implies #[trigger] b.grid_cont@[i]@[j]@[1]
        == a.grid_cont@[i]@[j]@[1] by {}
    assert forall|i: int, j: int|
        0 <= i < h && 0 <= j < w && a.cont_suspended@[i]@[j]@[0] && a.grid_cont@[i]@[j]@[0]
            != -1 implies (#[trigger] b.grid_cont@[i]@[j]@[0]) != -1 by {}
    ground_keeps_yard(
        a.cranes@,
        h,
        w,
        a.grid_crane@,
        a.grid_cont@,
        b.grid_cont@,
        a.cont_suspended@,
    );
    assert forall|i: int, j: int| 0 <= i < h && 0 <= j < w implies #[trigger] c.grid_cont@[i]@[j]@[1]
        == b.grid_cont@[i]@[j]@[1] by {}
    assert forall|i: int, j: int|
        0 <= i < h && 0 <= j < w && b.cont_suspended@[i]@[j]@[0] && b.grid_cont@[i]@[j]@[0]
            != -1 implies (#[trigger] c.grid_cont@[i]@[j]@[0]) != -1 by {}
    ground_keeps_yard(
        b.cranes@,
        h,
        w,
        b.grid_crane@,
        b.grid_cont@,
        c.grid_cont@,
        b.cont_suspended@,
    );
    assert forall|t: int| t1.turn <= t <= TURN implies (#[trigger] t1.out_cont_turn@[t])@.len()
        == 0 by {
        assert(b.out_cont_turn@[t] == a.out_cont_turn@[t]);
        assert(t0.out_cont_turn@[t]@.len() == 0);
    }
    assert forall|t: int| t1.turn <= t <= TURN implies (#[trigger] t1.incoming_cont_turn@[t])@.len()
        == 0 by {
        assert(c.incoming_cont_turn@[t] == b.incoming_cont_turn@[t]);
        assert(t0.incoming_cont_turn@[t]@.len() == 0);
    }
}

/// A terminal that holds what a settled one holds is settled.
pub proof fn same_state_settled(t0: Terminal, t2: Terminal)
    requires
        t0.ok(),
        t0.crew_ok(),
        t0.settled(),
        t0.same_state(&t2),
    ensures
        t2.settled(),
{
    let h = t0.h as int;
    let w = t0.w as int;
    let m = t0.turn as int % 2;
    let (gc0, g0, f0) = (t0.grid_crane@, t0.grid_cont@, t0.cont_suspended@);
    let (gc2, g2, f2) = (t2.grid_crane@, t2.grid_cont@, t2.cont_suspended@);
    assert forall|k: int| 0 <= k < t2.cranes@.len() implies crane_stands(
        #[trigger] t2.cranes@[k],
        k,
        gc2,
        g2,
        f2,
    ) by {
        let o = t0.cranes@[k];
        let n = t2.cranes@[k];
        assert(crane_stands(o, k, gc0, g0, f0));
        if k != m {
            assert(n == o);
        }
        assert(n.x == o.x && n.y == o.y && n.suspended == o.suspended && n.big == o.big);
        let here = gc2[o.x as int]@[o.y as int];
        let flag0 = f2[o.x as int]@[o.y as int]@[0];
        let flag1 = f2[o.x as int]@[o.y as int]@[1];
        let c0 = g2[o.x as int]@[o.y as int]@[0];
        let c1 = g2[o.x as int]@[o.y as int]@[1];
    }
    assert forall|i: int, j: int| 0 <= i < h && 0 <= j < w && (#[trigger] gc2[i]@[j])
        != -1 implies cell_named(t2.cranes@, gc2, i, j) by {
        assert(gc0[i]@[j] != -1);
        assert(cell_named(t0.cranes@, gc0, i, j));
        let k = gc0[i]@[j] as int;
        if k != m {
            assert(t2.cranes@[k] == t0.cranes@[k]);
        }
    }
    assert forall|i: int, j: int, q: int|
        0 <= i < h && 0 <= j < w && 0 <= q < 2 && #[trigger] f2[i]@[j]@[q] implies cell_named(
        t2.cranes@,
        gc2,
        i,
        j,
    ) && t2.cranes@[gc2[i]@[j] as int].suspended && layer(t2.cranes@[gc2[i]@[j] as int].big)
        == q by {
        assert(f0[i]@[j]@[q]);
        let named = gc2[i]@[j];
        assert(cell_named(t0.cranes@, gc0, i, j));
        let k = gc0[i]@[j] as int;
        if k != m {
            assert(t2.cranes@[k] == t0.cranes@[k]);
        }
    }
    assert forall|i: int, j: int| 0 <= i < h && 0 <= j < w && (#[trigger] g2[i]@[j]@[1])
        != -1 implies f2[i]@[j]@[1] by {
        let was = g0[i]@[j]@[1];
        let flag = f0[i]@[j]@[1];
    }
    assert forall|t: int| t2.turn <= t <= TURN implies (#[trigger] t2.out_cont_turn@[t])@.len()
        == 0 by {
        assert(t0.out_cont_turn@[t]@.len() == 0);
    }
    assert forall|t: int| t2.turn <= t <= TURN implies (#[trigger] t2.incoming_cont_turn@[t])@.len()
        == 0 by {
        assert(t0.incoming_cont_turn@[t]@.len() == 0);
    }
}

/// The inverse law on a settled yard: if the crane whose turn it is finds
/// operation `op` open in the settled terminal `t0`, `t1` is the next state
/// by `op`, and `t2` is what taking `op` back makes of `t1`, then `t1` is
/// settled, `op` can be taken back from it, and `t2` is settled and holds
/// what `t0` held in every field; only the crane may have codes for more
/// keys.
pub proof fn revert_undoes_apply(t0: Terminal, t1: Terminal, t2: Terminal, op: int)
    requires
        t0.ok(),
        t0.crew_ok(),
        t0.settled(),
        t0.turn < TURN,
        t0.found_open(op),
        forall|i: int, j: int, k: int|
            0 <= i < t0.h && 0 <= j < t0.w && 0 <= k < 2 ==> #[trigger] t0.grid_cont@[i]@[j]@[k] >= -1,
        t0.applied(&t1, op),
        t1.reverted(&t2, op),
    ensures
        t1.settled(),
        t1.can_revert(op),
        t0.same_state(&t2),
        t2.settled(),
{
    t0.settled_open(op);
    apply_keeps_settled(t0, t1, op);
    crate::inverse::applied_can_revert(t0, t1, op);
    revert_gives_back(t0, t1, t2, op);
    same_state_settled(t0, t2);
}

/// Asking the crane leaves it where and as it is: in every situation of a
/// round it stands, carries and has acted as at the start.
pub proof fn round_keeps_crane(t: Terminal, cs: Seq<Crane>, rs: Seq<bool>, n: int, k: int)
    requires
        0 <= k <= n,
        t.went_round(cs, rs, n),
    ensures
        t.mover().same_but_print(&cs[k]),
    decreases k,
{
    if k > 0 {
        round_keeps_crane(t, cs, rs, n, k - 1);
        assert(t.asked_about(cs, rs, k - 1));
    }
}

/// What the crane answered yes to is found open: if the crane whose turn it
/// is went round the operations with the answers `rs`, and the answer to
/// `op` was yes, then `op` is found open in the terminal.
pub proof fn yes_is_found_open(t: Terminal, cs: Seq<Crane>, rs: Seq<bool>, op: int)
    requires
        t.ok(),
        t.crew_ok(),
        t.mover().suspended ==> t.grid_cont@[t.mover().x as int]@[t.mover().y as int]@[layer(
            t.mover().big,
        )] != -1,
        t.went_round(cs, rs, OP_NUM as int),
        0 <= op < OP_NUM,
        rs[op],
    ensures
        t.found_open(op),
        code_of(reverse_spec(op)) != t.mover().pre_op,
{
    round_keeps_crane(t, cs, rs, OP_NUM as int, op);
    assert(t.asked_about(cs, rs, op));
    Crane::open_can_act(cs[op], cs[op + 1], op, t.grid_crane@, t.grid_cont@, t.out_cont_idx@);
}

} // verus!
