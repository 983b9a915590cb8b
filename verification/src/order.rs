//! The order of a walk over the tree: which nodes lie ahead of a walker,
//! and which lie behind it.

use crate::beam::{BeamSearch, NONE};
use crate::domain::Domain;
use vstd::prelude::*;

verus! {

impl<D: Domain> BeamSearch<D> {
    /// The ancestor of node `y` at depth `d`; `y` itself if it is no deeper.
    pub(crate) open spec fn anc(&self, y: int, d: nat) -> int
        decreases self.depth@[y],
    {
        if self.live(y) && y != 0 && self.depth@[y] > d && self.depth@[self.nodes[y].parent as int]
            < self.depth@[y] {
            self.anc(self.nodes[y].parent as int, d)
        } else {
            y
        }
    }

    /// Node `y` lies in the subtree of node `x`.
    pub(crate) open spec fn in_sub(&self, y: int, x: int) -> bool {
        self.depth@[y] >= self.depth@[x] && self.anc(y, self.depth@[x]) == x
    }

    /// The paths to `y` and to `x` part at depth `k`, and there the path to
    /// `y` goes through a later sibling.
    pub(crate) open spec fn later(&self, y: int, x: int, k: nat) -> bool {
        &&& 1 <= k <= self.depth@[y]
        &&& k <= self.depth@[x]
        &&& self.anc(y, (k - 1) as nat) == self.anc(x, (k - 1) as nat)
        &&& self.rank@[self.anc(y, k)] < self.rank@[self.anc(x, k)]
    }

    /// A walk comes to `y` after it has left the subtree of `x`.
    pub(crate) open spec fn after(&self, y: int, x: int) -> bool {
        exists|k: nat| self.later(y, x, k)
    }

    /// A walk that stands at `x` has not come to `y` yet.
    pub(crate) open spec fn ahead(&self, y: int, x: int) -> bool {
        self.in_sub(y, x) || self.after(y, x)
    }

    /// What the ancestors of a node are.
    pub(crate) proof fn lemma_anc(&self, y: int, d: nat)
        requires
            self.tree_ok(),
            self.live(y),
            d <= self.depth@[y],
        ensures
            self.live(self.anc(y, d)),
            self.depth@[self.anc(y, d)] == d,
            d == self.depth@[y] ==> self.anc(y, d) == y,
            d < self.depth@[y] ==> y != 0 && self.anc(y, d) == self.anc(
                self.nodes[y].parent as int,
                d,
            ),
            d >= 1 ==> self.anc(y, d) != 0 && self.nodes[self.anc(y, d)].parent == self.anc(
                y,
                (d - 1) as nat,
            ),
            d == 0 ==> self.anc(y, d) == 0,
        decreases self.depth@[y],
    {
        assert(self.linked(y));
        assert(self.linked(0));
        if y != 0 && self.depth@[y] > d {
            let p = self.nodes[y].parent as int;
            self.lemma_anc(p, d);
        } else {
            if d >= 1 {
                let p = self.nodes[y].parent as int;
                assert(self.linked(p));
                self.lemma_anc(p, (d - 1) as nat);
            }
        }
    }

    /// Among the children of one node, the one with the lower rank comes
    /// later in the list: a node has a next sibling of no lower rank than
    /// any other child whose rank is not above its own.
    #[verifier::rlimit(60)]
    pub(crate) proof fn lemma_sib(&self, x: int, s: int)
        requires
            self.tree_ok(),
            self.live(x),
            self.live(s),
            x != 0,
            s != 0,
            x != s,
            self.nodes[x].parent == self.nodes[s].parent,
            self.rank@[s] <= self.rank@[x],
        ensures
            self.nodes[x].next != NONE,
            self.rank@[self.nodes[x].next as int] >= self.rank@[s],
            self.rank@[s] < self.rank@[x],
        decreases (self.cap@ - self.rank@[s]) + (self.cap@ - self.rank@[x]),
    {
        assert(self.linked(x));
        assert(self.linked(s));
        let p = self.nodes[s].parent as int;
        let q = self.nodes[s].prev;
        if q == NONE {
            assert(self.nodes[p].child == s);
            self.lemma_first_child(x);
        } else {
            let q = q as int;
            assert(self.linked(q));
            assert(q != 0);
            assert(self.nodes[q].next == s);
            assert(self.nodes[q].parent == p);
            if q != x {
                if self.rank@[q] <= self.rank@[x] {
                    self.lemma_sib(x, q);
                } else {
                    self.lemma_sib(q, x);
                    let r = self.nodes[x].prev;
                    if r == NONE {
                        assert(self.nodes[p].child == x);
                        self.lemma_first_child(s);
                    } else {
                        let r = r as int;
                        assert(self.linked(r));
                        assert(self.nodes[r].next == x);
                        assert(self.nodes[r].parent == p);
                        if r != q {
                            if self.rank@[r] <= self.rank@[q] {
                                self.lemma_sib(q, r);
                            } else {
                                self.lemma_sib(r, q);
                            }
                        }
                    }
                }
            }
        }
    }

    /// Node `y` still waits for its visit: it is a leaf other than the root
    /// that is marked for the current generation.
    pub(crate) open spec fn pending(&self, y: int) -> bool {
        &&& self.live(y)
        &&& y != 0
        &&& self.nodes[y].child == NONE
        &&& self.nodes[y].valid == self.at
    }

    /// Every node that is spent and not yet listed is marked for the current
    /// generation and lies ahead of a walker that is about to look at `cur`
    /// (`pre`), or that has finished the subtree of `cur` (not `pre`). The
    /// order is that of the tree of `start`.
    pub(crate) open spec fn swept(&self, start: &Self, cur: int, pre: bool) -> bool {
        forall|y: int| #[trigger]
            self.pending(y) ==> self.nodes[y].valid == self.at && (if pre {
                start.ahead(y, cur)
            } else {
                start.after(y, cur)
            })
    }

    /// The ancestors of a node that is marked now are marked now; which
    /// nodes they are is read off the tree of `start`.
    pub(crate) proof fn lemma_anc_marked_now(start: &Self, now: &Self, y: int, d: nat)
        requires
            start.tree_ok(),
            start.fed(now),
            now.marks_ok(),
            start.live(y),
            now.nodes[y].valid == now.at,
            d <= start.depth@[y],
        ensures
            now.nodes[start.anc(y, d)].valid == now.at,
        decreases start.depth@[y],
    {
        assert(start.linked(y));
        if y != 0 && start.depth@[y] > d {
            let p = start.nodes[y].parent as int;
            assert(now.nodes[y].parent == start.nodes[y].parent);
            assert(now.live(y));
            Self::lemma_anc_marked_now(start, now, p, d);
        }
    }

    /// A walker goes down from `cur` to `ch`, its first marked child: what
    /// was ahead of it at `cur`, and is a marked leaf, is ahead of it at
    /// `ch`.
    #[verifier::rlimit(60)]
    pub(crate) proof fn lemma_down(start: &Self, now: &Self, cur: int, ch: int, y: int)
        requires
            start.tree_ok(),
            start.fed(now),
            now.marks_ok(),
            start.live(cur),
            start.live(ch),
            ch != 0,
            start.nodes[ch].parent == cur,
            now.unmarked_between(start.nodes[cur].child as int, start.rank@[ch] as int),
            start.live(y),
            y != 0,
            start.nodes[y].child == NONE,
            now.nodes[y].valid == now.at,
            start.ahead(y, cur),
        ensures
            start.ahead(y, ch),
    {
        let dc = start.depth@[cur];
        assert(start.linked(ch));
        assert(start.linked(cur));
        start.lemma_first_child(ch);
        let first = start.nodes[cur].child as int;
        start.lemma_anc(cur, dc);
        start.lemma_anc(ch, dc);
        start.lemma_anc(ch, dc + 1);
        if start.in_sub(y, cur) {
            start.lemma_anc(y, dc);
            assert(y != cur);
            assert(start.depth@[y] > dc);
            let e = start.anc(y, dc + 1);
            start.lemma_anc(y, dc + 1);
            Self::lemma_anc_marked_now(start, now, y, dc + 1);
            assert(start.nodes[e].parent == cur);
            start.lemma_first_child(e);
            assert(now.nodes[e].parent == start.nodes[e].parent);
            assert(now.nodes[first].parent == start.nodes[first].parent);
            assert(start.linked(first));
            if e != ch {
                if start.rank@[e] > start.rank@[ch] {
                    assert(now.nodes[e].valid != now.at);
                }
                start.lemma_sib(ch, e);
                assert(start.later(y, ch, dc + 1));
            } else {
                assert(start.in_sub(y, ch));
            }
        } else {
            let k = choose|k: nat| start.later(y, cur, k);
            start.lemma_anc(ch, (k - 1) as nat);
            start.lemma_anc(ch, k);
            assert(start.later(y, ch, k));
        }
    }

    /// A walker has looked at the leaf `cur`: what was ahead of it, and is
    /// another node, comes after `cur`.
    pub(crate) proof fn lemma_leaf(start: &Self, cur: int, y: int)
        requires
            start.tree_ok(),
            start.live(cur),
            start.nodes[cur].child == NONE,
            start.live(y),
            y != cur,
            start.ahead(y, cur),
        ensures
            start.after(y, cur),
    {
        let dc = start.depth@[cur];
        if start.in_sub(y, cur) {
            start.lemma_anc(y, dc);
            let e = start.anc(y, dc + 1);
            start.lemma_anc(y, dc + 1);
            start.lemma_first_child(e);
        }
    }

    /// A walker stands at `cur`, none of whose children is marked: what was
    /// ahead of it, and is a marked leaf, comes after `cur`.
    #[verifier::rlimit(60)]
    pub(crate) proof fn lemma_barren(start: &Self, now: &Self, cur: int, y: int)
        requires
            start.tree_ok(),
            start.fed(now),
            now.marks_ok(),
            start.live(cur),
            start.nodes[cur].child != NONE,
            now.unmarked_between(start.nodes[cur].child as int, -1),
            start.live(y),
            y != 0,
            start.nodes[y].child == NONE,
            now.nodes[y].valid == now.at,
            start.ahead(y, cur),
        ensures
            start.after(y, cur),
    {
        let dc = start.depth@[cur];
        assert(start.linked(cur));
        let first = start.nodes[cur].child as int;
        if start.in_sub(y, cur) {
            start.lemma_anc(y, dc);
            assert(y != cur);
            let e = start.anc(y, dc + 1);
            start.lemma_anc(y, dc + 1);
            Self::lemma_anc_marked_now(start, now, y, dc + 1);
            start.lemma_first_child(e);
            assert(now.nodes[e].parent == start.nodes[e].parent);
            assert(now.nodes[first].parent == start.nodes[first].parent);
            assert(start.linked(first));
            assert(now.nodes[e].valid != now.at);
        }
    }

    /// A walker goes up from `cur`, none of whose later siblings is marked:
    /// what comes after `cur`, and is a marked leaf, comes after its parent.
    #[verifier::rlimit(60)]
    pub(crate) proof fn lemma_up(start: &Self, now: &Self, cur: int, y: int)
        requires
            start.tree_ok(),
            start.fed(now),
            now.marks_ok(),
            start.live(cur),
            cur != 0,
            start.nodes[cur].next != NONE ==> now.unmarked_between(
                start.nodes[cur].next as int,
                -1,
            ),
            start.live(y),
            y != 0,
            now.nodes[y].valid == now.at,
            start.after(y, cur),
        ensures
            start.after(y, start.nodes[cur].parent as int),
    {
        let dc = start.depth@[cur];
        let p = start.nodes[cur].parent as int;
        assert(start.linked(cur));
        let k = choose|k: nat| start.later(y, cur, k);
        start.lemma_anc(cur, dc);
        start.lemma_anc(cur, (k - 1) as nat);
        start.lemma_anc(y, k);
        start.lemma_anc(y, (k - 1) as nat);
        if k == dc {
            let e = start.anc(y, k);
            Self::lemma_anc_marked_now(start, now, y, k);
            assert(start.nodes[e].parent == p);
            start.lemma_sib(cur, e);
            let nx = start.nodes[cur].next as int;
            assert(start.linked(nx));
            assert(now.nodes[e].parent == start.nodes[e].parent);
            assert(now.nodes[nx].parent == start.nodes[nx].parent);
            assert(now.nodes[e].valid != now.at);
        } else {
            start.lemma_anc(cur, k);
            assert(start.later(y, p, k));
        }
    }

    /// A walker moves on from `cur` to `s`, its first marked later sibling:
    /// what comes after `cur`, and is a marked leaf, is ahead of it at `s`.
    #[verifier::rlimit(60)]
    pub(crate) proof fn lemma_side(start: &Self, now: &Self, cur: int, s: int, y: int)
        requires
            start.tree_ok(),
            start.fed(now),
            now.marks_ok(),
            start.live(cur),
            cur != 0,
            start.nodes[cur].next != NONE,
            start.live(s),
            s != 0,
            start.nodes[s].parent == start.nodes[cur].parent,
            start.rank@[s] <= start.rank@[start.nodes[cur].next as int],
            now.unmarked_between(start.nodes[cur].next as int, start.rank@[s] as int),
            start.live(y),
            y != 0,
            now.nodes[y].valid == now.at,
            start.after(y, cur),
        ensures
            start.ahead(y, s),
    {
        let dc = start.depth@[cur];
        let p = start.nodes[cur].parent as int;
        assert(start.linked(cur));
        assert(start.linked(s));
        let nx = start.nodes[cur].next as int;
        assert(start.linked(nx));
        let k = choose|k: nat| start.later(y, cur, k);
        start.lemma_anc(cur, dc);
        start.lemma_anc(cur, (k - 1) as nat);
        start.lemma_anc(s, dc);
        start.lemma_anc(s, (k - 1) as nat);
        start.lemma_anc(y, k);
        start.lemma_anc(y, (k - 1) as nat);
        if k == dc {
            let e = start.anc(y, k);
            Self::lemma_anc_marked_now(start, now, y, k);
            assert(start.nodes[e].parent == p);
            start.lemma_sib(cur, e);
            assert(now.nodes[e].parent == start.nodes[e].parent);
            assert(now.nodes[nx].parent == start.nodes[nx].parent);
            if e != s {
                if start.rank@[e] > start.rank@[s] {
                    assert(now.nodes[e].valid != now.at);
                }
                start.lemma_sib(s, e);
                assert(start.later(y, s, k));
            } else {
                assert(start.in_sub(y, s));
            }
        } else {
            start.lemma_anc(cur, k);
            start.lemma_anc(s, k);
            assert(start.later(y, s, k));
        }
    }

    /// Every node lies ahead of a walker that is about to look at the root,
    /// and none comes after the root.
    pub(crate) proof fn lemma_root_order(start: &Self, y: int)
        requires
            start.tree_ok(),
            start.live(y),
        ensures
            start.ahead(y, 0),
            !start.after(y, 0),
    {
        assert(start.linked(0));
        start.lemma_anc(y, 0);
    }

    /// A change of the state alone changes nothing of what a walk has yet
    /// to visit.
    pub(crate) proof fn lemma_swept_moved(&self, new: &Self, start: &Self, cur: int, pre: bool)
        requires
            self.moved(new),
            self.swept(start, cur, pre),
        ensures
            new.swept(start, cur, pre),
    {
        assert forall|y: int| #[trigger] new.pending(y) implies new.nodes[y].valid == new.at && (if pre {
            start.ahead(y, cur)
        } else {
            start.after(y, cur)
        }) by {
            assert(self.pending(y));
        }
    }

    /// Node `y` is a leaf that is due for a visit: it is marked for the
    /// current generation, has no child, and no candidate waits for it.
    pub open(crate) spec fn due_leaf(&self, y: int) -> bool {
        &&& self.live(y)
        &&& self.nodes[y].child == NONE
        &&& self.nodes[y].valid == self.at
    }

    /// Node `y` has been visited: it has lost its mark, all the moves that
    /// the domain offers from its state were filed, each waits in the bucket
    /// of the turn at which it is due, and they are counted with the
    /// candidates that waited for the node before; and the node is on the
    /// list of leaves to take out if and only if it counts none.
    pub(crate) open spec fn asked(&self, start: &Self, y: int) -> bool {
        &&& self.nodes[y].valid == 0
        &&& self.nodes[y].refs == start.nodes[y].refs + start.moves_at(y).len()
        &&& self.que@.contains(y as u32) <==> self.nodes[y].refs == 0
        &&& start.can_file(y)
        &&& forall|k: int|
            0 <= k < start.moves_at(y).len() ==> self.waits(y, #[trigger] start.moves_at(y)[k])
    }

    /// Node `y` is as it was when the walk started.
    pub(crate) open spec fn untouched(&self, start: &Self, y: int) -> bool {
        self.nodes[y] == start.nodes[y]
    }

    /// Every leaf but the root that was due for a visit when the walk
    /// started has been visited, or is as it was; and every node that was
    /// not due for a visit is as it was.
    pub(crate) open spec fn tallied(&self, start: &Self) -> bool {
        &&& forall|y: int| #[trigger]
            start.due_leaf(y) && y != 0 ==> self.asked(start, y) || (self.nodes[y]
                == start.nodes[y] && !self.que@.contains(y as u32))
        &&& forall|y: int|
            0 <= y < start.nodes.len() && !start.due_leaf(y) ==> #[trigger] self.untouched(
                start,
                y,
            )
    }

    /// If the root was due for a visit when the walk started, it has been
    /// visited, or the walk is about to look at it and it is as it was.
    pub(crate) open spec fn root_tallied(&self, start: &Self, cur: int, pre: bool) -> bool {
        start.due_leaf(0) ==> self.asked(start, 0) || (pre && cur == 0 && self.nodes[0]
            == start.nodes[0] && !self.que@.contains(0u32))
    }

    /// A change of the state alone changes nothing of what has been
    /// visited.
    pub(crate) proof fn lemma_tallied_moved(&self, new: &Self, start: &Self)
        requires
            self.moved(new),
            self.tallied(start),
        ensures
            new.tallied(start),
            forall|cur: int, pre: bool|
                self.root_tallied(start, cur, pre) ==> #[trigger] new.root_tallied(start, cur, pre),
    {
        assert forall|y: int| #[trigger] start.due_leaf(y) && y != 0 implies new.asked(start, y)
            || (new.nodes[y] == start.nodes[y] && !new.que@.contains(y as u32)) by {
            assert(self.asked(start, y) || (self.nodes[y] == start.nodes[y]
                && !self.que@.contains(y as u32)));
        }
        assert forall|y: int| 0 <= y < start.nodes.len() && !start.due_leaf(y) implies #[trigger] new.untouched(
            start,
            y,
        ) by {
            assert(self.untouched(start, y));
        }
    }
}

} // verus!
