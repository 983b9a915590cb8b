//! The search tree: an arena of nodes addressed by index, with a pool of free
//! slots, and the candidates that wait to be turned into nodes.

use crate::domain::{offered, path_legal, replay, Domain, Move};
use vstd::prelude::*;

verus! {

/// The index that stands for "no node".
pub const NONE: u32 = 0xffff_ffff;

/// What can end a search attempt before it has an answer.
#[derive(Clone, Copy, Debug, PartialEq, Eq)]
pub enum SearchError {
    /// Every slot up to the configured ceiling is in use, or a counter of the
    /// engine would leave its range.
    ResourceExhausted,
    /// The last descendant of the root was taken out of the tree: nothing
    /// is left to grow it from.
    TreeCollapsed,
}

/// One slot of the arena.
#[derive(Clone, Copy)]
pub struct Node<O, P> {
    /// The bundle of moves that leads from the parent to this node.
    pub op: O,
    /// Parent node; `NONE` for the root.
    pub parent: u32,
    /// First child; `NONE` for a leaf.
    pub child: u32,
    /// Previous sibling; `NONE` for a first child.
    pub prev: u32,
    /// Next sibling; `NONE` for a last child.
    pub next: u32,
    /// Score of the state this node stands for.
    pub score: i64,
    /// Progress of the state this node stands for.
    pub progress: P,
    /// Fingerprint of the state this node stands for.
    pub hash: u64,
    /// Number of candidates grown from this node that are not yet resolved.
    pub refs: usize,
    /// Generation in which this node was last found to lead to a new leaf.
    pub valid: usize,
}

/// A proposed next step: an operation, the node it starts from, and what the
/// state will be worth after it.
#[derive(Clone, Copy)]
pub struct Cand<O, P> {
    /// The bundle of moves to apply.
    pub op: O,
    /// The node whose state the bundle is applied to.
    pub parent: u32,
    /// The ranking key: the score with the jitter added.
    pub eval_score: i64,
    /// Fingerprint after the bundle.
    pub hash: u64,
    /// Progress after the bundle.
    pub progress: P,
    /// Score after the bundle.
    pub score: i64,
    /// Value by which duplicates are recognised.
    pub key: u64,
    /// Number of atomic moves in the bundle.
    pub turns: usize,
}

impl<O: Copy, P: Copy> Cand<O, P> {
    /// The score without the jitter.
    pub fn raw_score(&self) -> (r: i64)
        ensures
            r == self.score,
    {
        self.score
    }

    /// The node that this candidate becomes: unlinked, with no pending
    /// candidates and no generation stamp.
    pub fn to_node(&self) -> (r: Node<O, P>)
        ensures
            r == (Node {
                op: self.op,
                parent: self.parent,
                child: NONE,
                prev: NONE,
                next: NONE,
                score: self.score,
                progress: self.progress,
                hash: self.hash,
                refs: 0,
                valid: 0,
            }),
    {
        Node {
            op: self.op,
            parent: self.parent,
            child: NONE,
            prev: NONE,
            next: NONE,
            score: self.score,
            progress: self.progress,
            hash: self.hash,
            refs: 0,
            valid: 0,
        }
    }

    /// This candidate as the move that the domain offered.
    pub open spec fn as_move(self) -> Move<O, P> {
        Move {
            op: self.op,
            turns: self.turns,
            score: self.score,
            hash: self.hash,
            progress: self.progress,
            key: self.key,
        }
    }
}

/// Number of candidates in `s` that start from node `x`.
pub open spec fn cnt<O, P>(s: Seq<Cand<O, P>>, x: u32) -> nat {
    s.fold_left(0nat, cnt_step::<O, P>(x))
}

/// One step of the count: a candidate that starts from `x` adds one.
pub open spec fn cnt_step<O, P>(x: u32) -> spec_fn(nat, Cand<O, P>) -> nat {
    |acc: nat, c: Cand<O, P>|
        if c.parent == x {
            acc + 1
        } else {
            acc
        }
}

/// Number of candidates in all buckets of `pool` that start from node `x`.
pub open spec fn cnt_pool<O, P>(pool: Seq<Vec<Cand<O, P>>>, x: u32) -> nat
    decreases pool.len(),
{
    if pool.len() == 0 {
        0
    } else {
        cnt_pool(pool.drop_last(), x) + cnt(pool.last()@, x)
    }
}

/// The beam search engine: one state, the tree of the paths that are still
/// followed, and the candidates that wait for their turn.
pub struct BeamSearch<D: Domain> {
    pub(crate) env: D::Env,
    pub(crate) state: D,
    pub(crate) nodes: Vec<Node<D::Op, D::Progress>>,
    pub(crate) que: Vec<u32>,
    pub(crate) cur_node: usize,
    pub(crate) free: Vec<u32>,
    pub(crate) at: usize,
    pub(crate) pool: Vec<Vec<Cand<D::Op, D::Progress>>>,
    pub(crate) turn: usize,
    pub(crate) ceiling: usize,
    pub(crate) seed: u64,
    pub(crate) alive: Ghost<Seq<bool>>,
    pub(crate) depth: Ghost<Seq<nat>>,
    pub(crate) rank: Ghost<Seq<nat>>,
    pub(crate) paths: Ghost<Seq<Seq<D::Op>>>,
    pub(crate) init: Ghost<D::V>,
    pub(crate) cap: Ghost<nat>,
    pub(crate) deep: Ghost<nat>,
}

impl<D: Domain> BeamSearch<D> {
    /// Slot `i` holds a node of the tree.
    pub open(crate) spec fn live(&self, i: int) -> bool {
        0 <= i < self.nodes.len() && self.alive@[i]
    }

    /// The operations that lead from the root to node `i`.
    pub open(crate) spec fn path(&self, i: int) -> Seq<D::Op> {
        self.paths@[i]
    }

    /// The contents of the state that the search started from.
    pub open(crate) spec fn origin(&self) -> D::V {
        self.init@
    }

    /// The slots of the arena, live or not.
    pub open(crate) spec fn slots(&self) -> Seq<Node<D::Op, D::Progress>> {
        self.nodes@
    }

    /// The buckets of waiting candidates, by the turn at which they are due.
    pub open(crate) spec fn buckets(&self) -> Seq<Vec<Cand<D::Op, D::Progress>>> {
        self.pool@
    }

    /// The tables the search runs on.
    pub open(crate) spec fn tables(&self) -> &D::Env {
        &self.env
    }

    /// The number of atomic moves that the newest leaves are away from the
    /// root.
    pub open(crate) spec fn round(&self) -> nat {
        self.turn as nat
    }

    /// The current generation.
    pub open(crate) spec fn generation(&self) -> nat {
        self.at as nat
    }

    /// The largest number of slots the arena may hold.
    pub open(crate) spec fn limit(&self) -> nat {
        self.ceiling as nat
    }

    /// The number of slots in the free pool.
    pub open(crate) spec fn spare(&self) -> nat {
        self.free@.len()
    }

    /// The leaves that the last walk found without continuations.
    pub open(crate) spec fn que_of(&self) -> Seq<u32> {
        self.que@
    }

    /// The state stands for node `i`: it holds what replaying the node's
    /// path from the origin gives.
    pub open(crate) spec fn stands_at(&self, i: int) -> bool {
        &&& self.state.wf(&self.env)
        &&& self.state.view_of() == replay::<D>(&self.env, self.init@, self.paths@[i])
    }

    /// The arena and its ghost model have matching sizes, and slot 0 is the
    /// root.
    pub open(crate) spec fn shape(&self) -> bool {
        &&& 1 <= self.nodes.len() <= self.ceiling < NONE
        &&& self.alive@.len() == self.nodes.len()
        &&& self.depth@.len() == self.nodes.len()
        &&& self.rank@.len() == self.nodes.len()
        &&& self.paths@.len() == self.nodes.len()
        &&& self.alive@[0]
        &&& self.nodes[0].parent == NONE
        &&& self.nodes[0].prev == NONE
        &&& self.nodes[0].next == NONE
        &&& self.depth@[0] == 0
        &&& self.paths@[0] =~= Seq::<D::Op>::empty()
        &&& self.cur_node == 0
        &&& self.turn < self.pool.len()
        &&& self.at == self.turn + 1
    }

    /// How many more nodes the arena can take: the slots in the free pool
    /// and those that it may still grow by.
    pub open(crate) spec fn room(&self) -> int {
        self.free@.len() + self.ceiling - self.nodes.len()
    }

    /// The slots of the free pool, the next to be taken last.
    pub open(crate) spec fn free_slots(&self) -> Seq<u32> {
        self.free@
    }

    /// Slot `i` is in the free pool.
    pub open(crate) spec fn pooled(&self, i: int) -> bool {
        exists|k: int| 0 <= k < self.free.len() && #[trigger] self.free[k] == i
    }

    /// The free pool names the dead slots, each once.
    pub open(crate) spec fn free_ok(&self) -> bool {
        &&& forall|k: int|
            0 <= k < self.free.len() ==> 0 < #[trigger] self.free[k] < self.nodes.len()
                && !self.alive@[self.free[k] as int]
        &&& forall|j: int, k: int|
            0 <= j < k < self.free.len() ==> self.free[j] != self.free[k]
        &&& forall|i: int| 0 < i < self.nodes.len() && !self.alive@[i] ==> #[trigger] self.pooled(i)
    }

    /// The links of node `i` agree with those of its neighbours.
    pub open(crate) spec fn linked(&self, i: int) -> bool {
        let n = self.nodes[i];
        &&& self.rank@[i] < self.cap@
        &&& self.depth@[i] < self.deep@
        &&& i != 0 ==> {
            &&& n.parent < self.nodes.len()
            &&& self.alive@[n.parent as int]
            &&& self.depth@[i] == self.depth@[n.parent as int] + 1
            &&& self.paths@[i] == self.paths@[n.parent as int].push(n.op)
            &&& n.prev == NONE ==> self.nodes[n.parent as int].child == i
            &&& n.prev != NONE ==> {
                &&& n.prev < self.nodes.len()
                &&& self.alive@[n.prev as int]
                &&& self.nodes[n.prev as int].next == i
            }
        }
        &&& n.next != NONE ==> {
            &&& n.next < self.nodes.len()
            &&& self.alive@[n.next as int]
            &&& self.nodes[n.next as int].prev == i
            &&& self.nodes[n.next as int].parent == n.parent
            &&& self.rank@[n.next as int] < self.rank@[i]
        }
        &&& n.child != NONE ==> {
            &&& n.child < self.nodes.len()
            &&& self.alive@[n.child as int]
            &&& self.nodes[n.child as int].parent == i
            &&& self.nodes[n.child as int].prev == NONE
        }
    }

    /// The arena is a forest rooted at slot 0 whose links are consistent.
    pub open(crate) spec fn tree_ok(&self) -> bool {
        &&& self.shape()
        &&& self.free_ok()
        &&& forall|i: int| self.live(i) ==> #[trigger] self.linked(i)
    }

    /// What node `i` records is what the domain says of the state reached by
    /// replaying the node's path.
    pub open(crate) spec fn sound(&self, i: int) -> bool {
        let n = self.nodes[i];
        let s = replay::<D>(&self.env, self.init@, self.paths@[i]);
        &&& path_legal::<D>(&self.env, self.init@, self.paths@[i])
        &&& D::inv(&self.env, s)
        &&& D::tracks(&self.env, s, n.progress)
        &&& i != 0 ==> !D::goal(&self.env, n.progress)
        &&& n.score == D::score_of(&self.env, s, n.progress)
        &&& n.hash == D::hash_of(&self.env, s, n.progress)
    }

    /// Every node is sound.
    pub open(crate) spec fn sem_ok(&self) -> bool {
        &&& D::inv(&self.env, self.init@)
        &&& forall|i: int| self.live(i) ==> #[trigger] self.sound(i)
    }

    /// Candidate `c` starts from a node of the tree and is a continuation
    /// that the domain offers from that node's state.
    pub open(crate) spec fn backed(&self, c: Cand<D::Op, D::Progress>) -> bool {
        &&& c.parent < self.nodes.len()
        &&& self.alive@[c.parent as int]
        &&& offered::<D>(
            &self.env,
            replay::<D>(&self.env, self.init@, self.paths@[c.parent as int]),
            c.as_move(),
        )
    }

    /// Every waiting candidate is backed, and every node counts the
    /// candidates that wait for it: those in the pool and those in `extra`.
    pub open(crate) spec fn pool_ok(&self, extra: Seq<Cand<D::Op, D::Progress>>) -> bool {
        &&& forall|b: int, k: int|
            0 <= b < self.pool.len() && 0 <= k < self.pool[b].len() ==> self.backed(
                #[trigger] self.pool[b][k],
            )
        &&& forall|k: int| 0 <= k < extra.len() ==> self.backed(#[trigger] extra[k])
        &&& forall|x: int|
            0 <= x < self.nodes.len() ==> (#[trigger] self.nodes[x]).refs == cnt_pool(
                self.pool@,
                x as u32,
            ) + cnt(extra, x as u32)
    }

    /// The state stands where the walker's current node says it stands.
    pub open(crate) spec fn state_ok(&self) -> bool {
        &&& self.state.wf(&self.env)
        &&& self.state.view_of() == replay::<D>(&self.env, self.init@, self.paths@[self.cur_node as int])
    }

    /// No node is marked for a generation to come, and a node that is marked
    /// for the current generation has a parent that is marked too; node
    /// `skip` may be the exception to the second.
    pub open(crate) spec fn marks_but(&self, skip: int) -> bool {
        forall|i: int|
            self.live(i) ==> {
                &&& (#[trigger] self.nodes[i]).valid <= self.at
                &&& i != 0 && i != skip && self.nodes[i].valid == self.at
                    ==> self.nodes[self.nodes[i].parent as int].valid == self.at
            }
    }

    /// No node is marked for a generation to come, and the nodes that are
    /// marked for the current generation hang together from the root down.
    pub open(crate) spec fn marks_ok(&self) -> bool {
        self.marks_but(-1)
    }

    /// Node `i` has a child that is marked for the current generation.
    pub open(crate) spec fn marked_child(&self, i: int) -> bool {
        exists|c: int|
            self.live(c) && c != 0 && (#[trigger] self.nodes[c]).parent == i && self.nodes[c].valid
                == self.at
    }

    /// Node `i` is a leaf of the current generation: it is marked and has no
    /// child.
    pub open(crate) spec fn leaf_now(&self, i: int) -> bool {
        self.live(i) && self.nodes[i].valid == self.at && self.nodes[i].child == NONE
    }

    /// The leaves of the current generation.
    pub open(crate) spec fn now_leaves(&self) -> Set<int> {
        Set::new(|i: int| self.leaf_now(i))
    }

    /// `fresh` lists nodes made in the current generation, which have no
    /// child and nothing waiting; and every other node that is marked for
    /// the current generation has a marked child.
    pub open(crate) spec fn fresh_ok(&self, fresh: Seq<int>) -> bool {
        &&& forall|k: int|
            0 <= k < fresh.len() ==> {
                let f = #[trigger] fresh[k];
                &&& self.live(f)
                &&& self.nodes[f].valid == self.at
                &&& self.nodes[f].child == NONE
                &&& self.nodes[f].refs == 0
            }
        &&& forall|i: int|
            self.live(i) && (#[trigger] self.nodes[i]).valid == self.at ==> fresh.contains(i)
                || self.marked_child(i)
    }

    /// The tree, what its nodes record, the pool, the marks and the state
    /// are in order.
    pub open(crate) spec fn base(&self) -> bool {
        &&& self.tree_ok()
        &&& self.sem_ok()
        &&& self.pool_ok(Seq::empty())
        &&& self.state_ok()
        &&& self.marks_ok()
    }

    /// Node `i` is spent: it is not the root, has no child, and no candidate
    /// waits for it.
    pub open(crate) spec fn spent(&self, i: int) -> bool {
        &&& self.live(i)
        &&& i != 0
        &&& self.nodes[i].child == NONE
        &&& self.nodes[i].refs == 0
    }

    /// The only nodes without a child and without a waiting candidate are
    /// leaves of the current generation, which the walk has yet to visit.
    pub open(crate) spec fn settled(&self) -> bool {
        forall|i: int| #[trigger] self.spent(i) ==> self.nodes[i].valid == self.at
    }

    /// Every node without a child and without a waiting candidate is on the
    /// list of leaves to take out.
    pub open(crate) spec fn harvested(&self) -> bool {
        forall|i: int| #[trigger] self.spent(i) ==> self.que@.contains(i as u32)
    }

    /// The engine is ready for a walk: all is in order, and no spent node is
    /// left from earlier rounds.
    pub open(crate) spec fn wf(&self) -> bool {
        &&& self.base()
        &&& self.settled()
    }
}


/// `a` and `b` are the same node but for the generation stamp.
pub open spec fn same_but_stamp<O, P>(a: Node<O, P>, b: Node<O, P>) -> bool {
    b == (Node { valid: b.valid, ..a })
}

impl<D: Domain> BeamSearch<D> {
    /// A node of the tree that is not the root hangs below a parent whose
    /// list of children starts somewhere, and starts elsewhere unless the
    /// node is the first child.
    pub(crate) proof fn lemma_first_child(&self, i: int)
        requires
            self.tree_ok(),
            self.live(i),
            i != 0,
        ensures
            ({
                let p = self.nodes[i].parent as int;
                let f = self.nodes[p].child;
                &&& f != NONE
                &&& self.live(f as int)
                &&& self.nodes[f as int].parent == p
                &&& f != i ==> self.nodes[f as int].next != NONE
                &&& f != i ==> self.rank@[f as int] > self.rank@[i]
            }),
        decreases self.cap@ - self.rank@[i],
    {
        assert(self.linked(i));
        let p = self.nodes[i].parent as int;
        assert(self.linked(p));
        let q = self.nodes[i].prev;
        if q != NONE {
            assert(self.linked(q as int));
            assert(q != 0);
            self.lemma_first_child(q as int);
        }
    }

    /// While any node but the root is in the tree, the root has a child.
    pub(crate) proof fn lemma_root_has_child(&self, i: int)
        requires
            self.tree_ok(),
            self.live(i),
            i != 0,
        ensures
            self.nodes[0].child != NONE,
        decreases self.depth@[i],
    {
        assert(self.linked(i));
        self.lemma_first_child(i);
        let p = self.nodes[i].parent as int;
        if p != 0 {
            self.lemma_root_has_child(p);
        }
    }

    /// Whenever a node is marked for the current generation, the root is.
    pub(crate) proof fn lemma_root_marked(&self, i: int)
        requires
            self.tree_ok(),
            self.marks_ok(),
            self.live(i),
            self.nodes[i].valid == self.at,
        ensures
            self.nodes[0].valid == self.at,
        decreases self.depth@[i],
    {
        if i != 0 {
            assert(self.linked(i));
            self.lemma_root_marked(self.nodes[i].parent as int);
        }
    }

    /// An engine whose tree is the root alone, standing for `state`.
    pub fn new(env: D::Env, state: D, root_op: D::Op, ceiling: usize, horizon: usize) -> (r: Self)
        requires
            state.wf(&env),
            1 <= ceiling < NONE,
            horizon < usize::MAX,
        ensures
            r.wf(),
            r.origin() == state.view_of(),
            *r.tables() == env,
            r.slots().len() == 1,
            r.slots()[0].op == root_op,
            r.slots()[0].progress == D::start(r.tables(), state.view_of()),
            r.slots()[0].child == NONE,
            r.slots()[0].refs == 0,
            r.slots()[0].valid == 1,
            r.buckets().len() == horizon + 1,
            forall|b: int| 0 <= b <= horizon ==> (#[trigger] r.buckets()[b])@.len() == 0,
            r.round() == 0,
            r.generation() == 1,
            r.limit() == ceiling,
            r.spare() == 0,
    {
        let (progress, score, hash) = state.survey(&env);
        let node = Node {
            op: root_op,
            parent: NONE,
            child: NONE,
            prev: NONE,
            next: NONE,
            score,
            progress,
            hash,
            refs: 0,
            valid: 1,
        };
        let mut nodes = Vec::new();
        nodes.push(node);
        let mut pool: Vec<Vec<Cand<D::Op, D::Progress>>> = Vec::new();
        while pool.len() <= horizon
            invariant
                pool.len() <= horizon + 1,
                horizon < usize::MAX,
                forall|b: int| 0 <= b < pool.len() ==> (#[trigger] pool[b])@.len() == 0,
            decreases horizon + 1 - pool.len(),
        {
            pool.push(Vec::new());
        }
        proof {
            state.wf_inv(&env);
        }
        let ghost v = state.view_of();
        let r = BeamSearch {
            env,
            state,
            nodes,
            que: Vec::new(),
            cur_node: 0,
            free: Vec::new(),
            at: 1,
            pool,
            turn: 0,
            ceiling,
            seed: crate::rnd::SEED,
            alive: Ghost(Seq::empty().push(true)),
            depth: Ghost(Seq::empty().push(0nat)),
            rank: Ghost(Seq::empty().push(0nat)),
            paths: Ghost(Seq::empty().push(Seq::<D::Op>::empty())),
            init: Ghost(v),
            cap: Ghost(1nat),
            deep: Ghost(1nat),
        };
        assert(r.linked(0));
        assert(r.sound(0));
        assert(r.marks_ok());
        proof {
            lemma_cnt_pool_zero(r.pool@, 0u32);
            assert(cnt(Seq::<Cand<D::Op, D::Progress>>::empty(), 0u32) == 0);
        }
        r
    }

    /// The new engine differs from the old one in generation stamps only.
    pub open(crate) spec fn restamped(&self, new: &Self) -> bool {
        &&& new.nodes.len() == self.nodes.len()
        &&& forall|i: int|
            0 <= i < self.nodes.len() ==> same_but_stamp(self.nodes[i], #[trigger] new.nodes[i])
        &&& forall|i: int|
            0 <= i < self.nodes.len() ==> (#[trigger] new.nodes[i]).valid == self.nodes[i].valid
                || new.nodes[i].valid == self.at
        &&& new.env == self.env
        &&& new.state == self.state
        &&& new.que == self.que
        &&& new.cur_node == self.cur_node
        &&& new.free == self.free
        &&& new.at == self.at
        &&& new.pool == self.pool
        &&& new.turn == self.turn
        &&& new.ceiling == self.ceiling
        &&& new.seed == self.seed
        &&& new.alive == self.alive
        &&& new.depth == self.depth
        &&& new.rank == self.rank
        &&& new.paths == self.paths
        &&& new.init == self.init
        &&& new.cap == self.cap
        &&& new.deep == self.deep
    }

    /// While the same slots are dead and the free pool is the same, the
    /// dead slots are in the pool.
    pub(crate) proof fn lemma_pool_kept(&self, new: &Self)
        requires
            self.free_ok(),
            new.free@ == self.free@,
            new.alive@ == self.alive@,
            new.nodes.len() == self.nodes.len(),
        ensures
            forall|i: int| 0 < i < new.nodes.len() && !new.alive@[i] ==> #[trigger] new.pooled(i),
    {
        assert forall|i: int| 0 < i < new.nodes.len() && !new.alive@[i] implies #[trigger] new.pooled(
            i,
        ) by {
            assert(self.pooled(i));
            let k = choose|k: int| 0 <= k < self.free.len() && #[trigger] self.free[k] == i;
            assert(new.free[k] == i);
        }
    }

    /// Generation stamps play no part in the consistency of the engine.
    pub(crate) proof fn lemma_restamped(&self, new: &Self)
        requires
            self.restamped(new),
        ensures
            self.tree_ok() ==> new.tree_ok(),
            self.sem_ok() ==> new.sem_ok(),
            self.state_ok() ==> new.state_ok(),
            forall|extra: Seq<Cand<D::Op, D::Progress>>|
                self.pool_ok(extra) ==> #[trigger] new.pool_ok(extra),
    {
        if self.tree_ok() {
            assert forall|i: int| new.live(i) implies #[trigger] new.linked(i) by {
                assert(self.linked(i));
            }
            self.lemma_pool_kept(new);
        }
        if self.sem_ok() {
            assert forall|i: int| new.live(i) implies #[trigger] new.sound(i) by {
                assert(self.sound(i));
            }
        }
        assert forall|extra: Seq<Cand<D::Op,
            D::Progress>>| self.pool_ok(extra) implies #[trigger] new.pool_ok(extra) by {
            assert forall|b: int, k: int|
                0 <= b < new.pool.len() && 0 <= k < new.pool[b].len() implies new.backed(
                #[trigger] new.pool[b][k],
            ) by {
                assert(self.backed(self.pool[b][k]));
            }
            assert forall|k: int| 0 <= k < extra.len() implies new.backed(#[trigger] extra[k]) by {
                assert(self.backed(extra[k]));
            }
        }
    }

    /// Marks `idx` and its ancestors as leading to a new leaf of this
    /// generation, up to the first one that is marked already.
    #[verifier::rlimit(60)]
    pub fn retarget(&mut self, idx: u32)
        requires
            old(self).tree_ok(),
            old(self).marks_ok(),
            old(self).live(idx as int),
        ensures
            old(self).restamped(final(self)),
            final(self).tree_ok(),
            final(self).marks_ok(),
            final(self).slots()[idx as int].valid == old(self).generation(),
            forall|i: int|
                0 <= i < old(self).slots().len() && (#[trigger] final(self).slots()[i]).valid
                    != old(self).slots()[i].valid ==> i == idx || old(self).slots()[i].child
                    != NONE,
            forall|i: int|
                0 <= i < old(self).slots().len() && (#[trigger] final(self).slots()[i]).valid
                    != old(self).slots()[i].valid ==> i == idx || final(self).marked_child(i),
    {
        let mut idx = idx;
        let ghost start = idx;
        let ghost mut last: int = -1;
        while self.nodes[idx as usize].valid != self.at
            invariant_except_break
                last != -1 ==> self.live(last) && last != 0 && self.nodes[last].parent == idx
                    && self.nodes[last].valid == self.at,
                idx != start ==> last != -1,
            invariant
                old(self).tree_ok(),
                old(self).restamped(self),
                self.marks_but(last),
                self.tree_ok(),
                self.live(idx as int),
                self.live(start as int),
                idx != start ==> self.nodes[start as int].valid == self.at,
                idx != start ==> self.nodes[idx as int].child != NONE,
                forall|i: int|
                    0 <= i < self.nodes.len() && (#[trigger] self.nodes[i]).valid
                        != old(self).nodes[i].valid ==> i == start || old(self).nodes[i].child
                        != NONE,
                forall|i: int|
                    0 <= i < self.nodes.len() && (#[trigger] self.nodes[i]).valid
                        != old(self).nodes[i].valid ==> i == start || self.marked_child(i),
            ensures
                old(self).restamped(self),
                self.tree_ok(),
                self.marks_ok(),
                self.live(start as int),
                self.nodes[start as int].valid == self.at,
                forall|i: int|
                    0 <= i < self.nodes.len() && (#[trigger] self.nodes[i]).valid
                        != old(self).nodes[i].valid ==> i == start || old(self).nodes[i].child
                        != NONE,
                forall|i: int|
                    0 <= i < self.nodes.len() && (#[trigger] self.nodes[i]).valid
                        != old(self).nodes[i].valid ==> i == start || self.marked_child(i),
            decreases self.depth@[idx as int],
        {
            let ghost before = *self;
            self.nodes[idx as usize].valid = self.at;
            proof {
                assert(before.restamped(self));
                before.lemma_restamped(self);
                assert forall|i: int| self.live(i) implies {
                    &&& (#[trigger] self.nodes[i]).valid <= self.at
                    &&& i != 0 && i != idx && self.nodes[i].valid == self.at
                        ==> self.nodes[self.nodes[i].parent as int].valid == self.at
                } by {
                    assert(before.nodes[i].valid <= before.at);
                    assert(self.linked(i));
                    if i != 0 && i != idx && self.nodes[i].valid == self.at {
                        assert(before.nodes[i].valid == before.at);
                    }
                }
                assert forall|i: int|
                    0 <= i < self.nodes.len() && (#[trigger] self.nodes[i]).valid
                        != old(self).nodes[i].valid implies i == start || self.marked_child(i) by {
                    if i != start {
                        if i == idx {
                            assert(self.live(last) && last != 0 && self.nodes[last].parent == i
                                && self.nodes[last].valid == self.at);
                        } else {
                            assert(before.marked_child(i));
                            let c = choose|c: int|
                                before.live(c) && c != 0 && (#[trigger] before.nodes[c]).parent == i
                                    && before.nodes[c].valid == before.at;
                            assert(self.live(c) && c != 0 && self.nodes[c].parent == i
                                && self.nodes[c].valid == self.at);
                        }
                    }
                }
                last = idx as int;
            }
            if idx as usize == self.cur_node {
                break ;
            }
            proof {
                assert(self.linked(idx as int));
                self.lemma_first_child(idx as int);
            }
            idx = self.nodes[idx as usize].parent;
        }
    }
}


/// No candidate of `s` starts from `x`, so the count is zero.
pub proof fn lemma_cnt_zero<O, P>(s: Seq<Cand<O, P>>, x: u32)
    requires
        forall|k: int| 0 <= k < s.len() ==> (#[trigger] s[k]).parent != x,
    ensures
        cnt(s, x) == 0,
    decreases s.len(),
{
    if s.len() > 0 {
        lemma_cnt_zero(s.drop_last(), x);
    }
}

/// A candidate of `s` is counted for the node it starts from.
pub proof fn lemma_cnt_member<O, P>(s: Seq<Cand<O, P>>, k: int)
    requires
        0 <= k < s.len(),
    ensures
        cnt(s, s[k].parent) >= 1,
    decreases s.len(),
{
    if k < s.len() - 1 {
        lemma_cnt_member(s.drop_last(), k);
    }
}

/// No candidate of `pool` starts from `x`, so the count is zero.
pub proof fn lemma_cnt_pool_zero<O, P>(pool: Seq<Vec<Cand<O, P>>>, x: u32)
    requires
        forall|b: int, k: int|
            0 <= b < pool.len() && 0 <= k < pool[b].len() ==> (#[trigger] pool[b][k]).parent != x,
    ensures
        cnt_pool(pool, x) == 0,
    decreases pool.len(),
{
    if pool.len() > 0 {
        lemma_cnt_pool_zero(pool.drop_last(), x);
        lemma_cnt_zero(pool.last()@, x);
    }
}

/// A candidate of `pool` is counted for the node it starts from.
pub proof fn lemma_cnt_pool_member<O, P>(pool: Seq<Vec<Cand<O, P>>>, b: int, k: int)
    requires
        0 <= b < pool.len(),
        0 <= k < pool[b].len(),
    ensures
        cnt_pool(pool, pool[b][k].parent) >= 1,
    decreases pool.len(),
{
    if b < pool.len() - 1 {
        lemma_cnt_pool_member(pool.drop_last(), b, k);
    } else {
        lemma_cnt_member(pool.last()@, k);
    }
}

impl<D: Domain> BeamSearch<D> {
    /// `new` is this engine after `cand` became the node in slot `slot`.
    pub open(crate) spec fn grown(
        &self,
        new: &Self,
        cand: Cand<D::Op, D::Progress>,
        slot: int,
    ) -> bool {
        let p = cand.parent as int;
        let f = self.nodes[p].child;
        &&& 0 < slot < new.nodes.len()
        &&& !self.live(slot)
        &&& new.live(slot)
        &&& self.free.len() > 0 ==> {
            &&& slot == self.free@.last()
            &&& new.free@ == self.free@.drop_last()
            &&& new.nodes.len() == self.nodes.len()
        }
        &&& self.free.len() == 0 ==> {
            &&& slot == self.nodes.len()
            &&& new.free@ == self.free@
            &&& new.nodes.len() == self.nodes.len() + 1
        }
        &&& new.paths@[slot] == self.paths@[p].push(cand.op)
        &&& new.nodes[slot] == (Node {
            op: cand.op,
            parent: cand.parent,
            child: NONE,
            prev: NONE,
            next: f,
            score: cand.score,
            progress: cand.progress,
            hash: cand.hash,
            refs: 0,
            valid: new.nodes[slot].valid,
        })
        &&& forall|i: int|
            0 <= i < self.nodes.len() && i != slot ==> #[trigger] new.alive@[i] == self.alive@[i]
        &&& forall|i: int|
            0 <= i < self.nodes.len() && i != slot ==> #[trigger] new.paths@[i] == self.paths@[i]
        &&& forall|i: int|
            0 <= i < self.nodes.len() && i != slot ==> {
                &&& #[trigger] new.nodes[i] == (Node {
                    child: if i == p {
                        slot as u32
                    } else {
                        self.nodes[i].child
                    },
                    prev: if i == f {
                        slot as u32
                    } else {
                        self.nodes[i].prev
                    },
                    valid: new.nodes[i].valid,
                    ..self.nodes[i]
                })
                &&& (new.nodes[i].valid == self.nodes[i].valid || new.nodes[i].valid == self.at)
            }
        &&& new.alive@.len() == new.nodes.len()
        &&& new.depth@.len() == new.nodes.len()
        &&& new.rank@.len() == new.nodes.len()
        &&& new.paths@.len() == new.nodes.len()
        &&& new.depth@[slot] == self.depth@[p] + 1
        &&& new.rank@[slot] == (if f != NONE {
            self.rank@[f as int] + 1
        } else {
            0
        })
        &&& forall|i: int|
            0 <= i < self.nodes.len() && i != slot ==> #[trigger] new.depth@[i] == self.depth@[i]
        &&& forall|i: int|
            0 <= i < self.nodes.len() && i != slot ==> #[trigger] new.rank@[i] == self.rank@[i]
        &&& new.cap@ >= self.cap@
        &&& new.cap@ > new.rank@[slot]
        &&& new.deep@ >= self.deep@
        &&& new.deep@ > new.depth@[slot]
        &&& new.env == self.env
        &&& new.state == self.state
        &&& new.que == self.que
        &&& new.cur_node == self.cur_node
        &&& new.at == self.at
        &&& new.pool == self.pool
        &&& new.turn == self.turn
        &&& new.ceiling == self.ceiling
        &&& new.seed == self.seed
        &&& new.init == self.init
    }

    /// Linking a new first child below a node of the tree keeps the tree
    /// consistent.
    #[verifier::rlimit(60)]
    pub(crate) proof fn lemma_grown_tree(
        &self,
        new: &Self,
        cand: Cand<D::Op, D::Progress>,
        slot: int,
    )
        requires
            self.tree_ok(),
            self.live(cand.parent as int),
            self.grown(new, cand, slot),
            new.nodes.len() <= new.ceiling,
        ensures
            new.tree_ok(),
    {
        let p = cand.parent as int;
        let f = self.nodes[p].child;
        assert(self.linked(p));
        assert(self.linked(0));
        assert(new.nodes[0].parent == NONE);
        assert(new.shape());
        assert forall|k: int| 0 <= k < new.free.len() implies 0 < #[trigger] new.free[k]
            < new.nodes.len() && !new.alive@[new.free[k] as int] by {
            assert(new.free[k] == self.free[k]);
        }
        assert forall|j: int, k: int| 0 <= j < k < new.free.len() implies new.free[j]
            != new.free[k] by {
            assert(new.free[j] == self.free[j]);
            assert(new.free[k] == self.free[k]);
        }
        assert forall|i: int| 0 < i < new.nodes.len() && !new.alive@[i] implies #[trigger] new.pooled(
            i,
        ) by {
            assert(i != slot);
            assert(!self.alive@[i]);
            assert(self.pooled(i));
            let k = choose|k: int| 0 <= k < self.free.len() && #[trigger] self.free[k] == i;
            assert(k < new.free.len());
            assert(new.free[k] == i);
        }
        assert forall|i: int| new.live(i) implies #[trigger] new.linked(i) by {
            if i != slot {
                assert(self.linked(i));
                let n = self.nodes[i];
                if i != 0 {
                    assert(self.linked(n.parent as int));
                    if n.prev != NONE {
                        assert(self.linked(n.prev as int));
                    }
                }
                if n.next != NONE {
                    assert(self.linked(n.next as int));
                }
                if n.child != NONE {
                    assert(self.linked(n.child as int));
                }
            } else {
                if f != NONE {
                    assert(self.linked(f as int));
                }
            }
        }
    }

    /// A backed candidate that becomes a node makes a sound node.
    pub(crate) proof fn lemma_grown_sem(
        &self,
        new: &Self,
        cand: Cand<D::Op, D::Progress>,
        slot: int,
    )
        requires
            self.shape(),
            self.sem_ok(),
            self.backed(cand),
            !D::goal(&self.env, cand.progress),
            self.grown(new, cand, slot),
        ensures
            new.sem_ok(),
    {
        let p = cand.parent as int;
        assert(self.sound(p));
        let s = replay::<D>(&self.env, self.init@, self.paths@[p]);
        D::step_unstep(&self.env, s, cand.op);
        assert(new.paths@[slot].drop_last() =~= self.paths@[p]);
        assert forall|i: int| new.live(i) implies #[trigger] new.sound(i) by {
            if i != slot {
                assert(self.sound(i));
            }
        }
    }

    /// Growing the tree leaves the waiting candidates as well backed and as
    /// well counted as they were.
    pub(crate) proof fn lemma_grown(
        &self,
        new: &Self,
        cand: Cand<D::Op, D::Progress>,
        slot: int,
        extra: Seq<Cand<D::Op, D::Progress>>,
    )
        requires
            self.shape(),
            new.shape(),
            self.grown(new, cand, slot),
            self.pool_ok(extra),
        ensures
            new.pool_ok(extra),
            self.state_ok() ==> new.state_ok(),
    {
        assert forall|b: int, k: int|
            0 <= b < new.pool.len() && 0 <= k < new.pool[b].len() implies new.backed(
            #[trigger] new.pool[b][k],
        ) && new.pool[b][k].parent != slot by {
            assert(self.backed(self.pool[b][k]));
        }
        assert forall|k: int| 0 <= k < extra.len() implies new.backed(#[trigger] extra[k])
            && extra[k].parent != slot by {
            assert(self.backed(extra[k]));
        }
        lemma_cnt_pool_zero(new.pool@, slot as u32);
        lemma_cnt_zero(extra, slot as u32);
    }

    /// Marking nodes after growing the tree leaves the tree grown.
    pub(crate) proof fn lemma_grown_restamped(
        &self,
        mid: &Self,
        new: &Self,
        cand: Cand<D::Op, D::Progress>,
        slot: int,
    )
        requires
            self.shape(),
            self.grown(mid, cand, slot),
            mid.restamped(new),
        ensures
            self.grown(new, cand, slot),
    {
        assert(new.nodes[slot] == (Node { valid: new.nodes[slot].valid, ..mid.nodes[slot] }));
        assert forall|i: int| 0 <= i < self.nodes.len() && i != slot implies {
            &&& #[trigger] new.nodes[i] == (Node {
                child: if i == cand.parent as int {
                    slot as u32
                } else {
                    self.nodes[i].child
                },
                prev: if i == self.nodes[cand.parent as int].child {
                    slot as u32
                } else {
                    self.nodes[i].prev
                },
                valid: new.nodes[i].valid,
                ..self.nodes[i]
            })
            &&& (new.nodes[i].valid == self.nodes[i].valid || new.nodes[i].valid == self.at)
        } by {
            assert(new.nodes[i] == (Node { valid: new.nodes[i].valid, ..mid.nodes[i] }));
        }
    }

    /// Takes a slot from the free pool, or a new one while the arena is
    /// below its ceiling, and links `cand` in there as the first child of
    /// its parent, without a mark. Returns the slot.
    #[verifier::rlimit(60)]
    pub(crate) fn link_in(&mut self, cand: Cand<D::Op, D::Progress>) -> (r: Result<u32, SearchError>)
        requires
            old(self).tree_ok(),
            old(self).sem_ok(),
            old(self).marks_ok(),
            old(self).backed(cand),
            !D::goal(old(self).tables(), cand.progress),
        ensures
            r is Err <==> old(self).spare() == 0 && old(self).slots().len() >= old(self).limit(),
            r matches Err(e) ==> e == SearchError::ResourceExhausted,
            r is Err ==> *final(self) == *old(self),
            r matches Ok(slot) ==> {
                &&& final(self).tree_ok()
                &&& final(self).sem_ok()
                &&& final(self).marks_ok()
                &&& old(self).grown(final(self), cand, slot as int)
                &&& final(self).nodes[slot as int].valid == 0
                &&& forall|i: int|
                    0 <= i < old(self).nodes.len() && i != slot
                        ==> (#[trigger] final(self).nodes[i]).valid == old(self).nodes[i].valid
            },
    {
        let parent = cand.parent as usize;
        let next = self.nodes[parent].child;
        let ghost pre = *self;
        proof {
            assert(self.linked(parent as int));
        }
        let mut node = cand.to_node();
        node.next = next;
        let new: u32;
        if self.free.len() > 0 {
            new = self.free.pop().unwrap();
            self.nodes[new as usize] = node;
            proof {
                self.alive@ = self.alive@.update(new as int, true);
                self.depth@ = self.depth@.update(new as int, self.depth@[parent as int] + 1);
                self.rank@ = self.rank@.update(
                    new as int,
                    if next != NONE {
                        self.rank@[next as int] + 1
                    } else {
                        0
                    },
                );
                self.paths@ = self.paths@.update(new as int, self.paths@[parent as int].push(cand.op));
            }
        } else {
            if self.nodes.len() >= self.ceiling {
                return Err(SearchError::ResourceExhausted);
            }
            new = self.nodes.len() as u32;
            self.nodes.push(node);
            proof {
                self.alive@ = self.alive@.push(true);
                self.depth@ = self.depth@.push(self.depth@[parent as int] + 1);
                self.rank@ = self.rank@.push(
                    if next != NONE {
                        self.rank@[next as int] + 1
                    } else {
                        0
                    },
                );
                self.paths@ = self.paths@.push(self.paths@[parent as int].push(cand.op));
            }
        }
        if next != NONE {
            self.nodes[next as usize].prev = new;
        }
        self.nodes[parent].child = new;
        proof {
            if self.rank@[new as int] >= self.cap@ {
                self.cap@ = self.rank@[new as int] + 1;
            }
            if self.depth@[new as int] >= self.deep@ {
                self.deep@ = self.depth@[new as int] + 1;
            }
            assert(pre.grown(self, cand, new as int));
            pre.lemma_grown_tree(self, cand, new as int);
            pre.lemma_grown_sem(self, cand, new as int);
            assert forall|i: int| self.live(i) implies {
                &&& (#[trigger] self.nodes[i]).valid <= self.at
                &&& i != 0 && self.nodes[i].valid == self.at
                    ==> self.nodes[self.nodes[i].parent as int].valid == self.at
            } by {
                if i != new {
                    assert(pre.live(i));
                    assert(pre.linked(i));
                    assert(pre.nodes[i].valid <= pre.at);
                }
            }
        }
        Ok(new)
    }

    /// Turns `cand` into a node: takes a slot from the free pool, or a new
    /// one while the arena is below its ceiling, links it in as the first
    /// child of the candidate's parent, and marks the way to it for the
    /// current generation.
    #[verifier::rlimit(60)]
    pub fn add_node(&mut self, cand: Cand<D::Op, D::Progress>) -> (r: Result<(), SearchError>)
        requires
            old(self).tree_ok(),
            old(self).sem_ok(),
            old(self).marks_ok(),
            old(self).backed(cand),
            !D::goal(old(self).tables(), cand.progress),
        ensures
            r is Err <==> old(self).spare() == 0 && old(self).slots().len() >= old(self).limit(),
            r matches Err(e) ==> e == SearchError::ResourceExhausted,
            r is Err ==> *final(self) == *old(self),
            r is Ok ==> {
                &&& final(self).tree_ok()
                &&& final(self).sem_ok()
                &&& final(self).marks_ok()
                &&& old(self).grown(
                    final(self),
                    cand,
                    final(self).slots()[cand.parent as int].child as int,
                )
                &&& final(self).slots()[final(self).slots()[cand.parent as int].child as int].valid
                    == old(self).generation()
                &&& final(self).slots()[0].valid == old(self).generation()
                &&& forall|i: int|
                    0 <= i < old(self).slots().len() && i
                        != final(self).slots()[cand.parent as int].child
                        && (#[trigger] final(self).slots()[i]).valid
                        != old(self).slots()[i].valid ==> final(self).marked_child(i)
            },
    {
        let new = match self.link_in(cand) {
            Err(e) => {
                return Err(e);
            },
            Ok(new) => new,
        };
        let ghost mid = *self;
        self.retarget(new);
        proof {
            mid.lemma_restamped(self);
            self.lemma_root_marked(new as int);
            old(self).lemma_grown_restamped(&mid, self, cand, new as int);
            assert(self.linked(cand.parent as int));
        }
        Ok(())
    }
}

impl<D: Domain> BeamSearch<D> {
    /// `new` is this engine after some childless nodes with nothing pending
    /// left the tree: links may differ, and nothing else does.
    pub open(crate) spec fn pruned(&self, new: &Self, first: int) -> bool {
        self.pruned_but(new, first, -1)
    }

    /// As [`Self::pruned`], but node `skip` may have been left childless with
    /// nothing pending.
    pub open(crate) spec fn pruned_but(&self, new: &Self, first: int, skip: int) -> bool {
        &&& new.nodes.len() == self.nodes.len()
        &&& forall|i: int|
            0 <= i < self.nodes.len() && self.nodes[i].child == NONE ==> (#[trigger] new.nodes[i]).child
                == NONE
        &&& forall|i: int|
            0 <= i < self.nodes.len() && self.alive@[i] && !(#[trigger] new.alive@[i]) ==> i
                == first || self.nodes[i].child != NONE
        &&& forall|i: int|
            0 <= i < self.nodes.len() ==> #[trigger] new.nodes[i] == (Node {
                child: new.nodes[i].child,
                prev: new.nodes[i].prev,
                next: new.nodes[i].next,
                ..self.nodes[i]
            })
        &&& new.alive@.len() == self.alive@.len()
        &&& forall|i: int|
            0 <= i < self.nodes.len() && #[trigger] new.alive@[i] ==> self.alive@[i]
        &&& forall|i: int|
            0 <= i < self.nodes.len() && self.alive@[i] && !(#[trigger] new.alive@[i]) ==> i != 0
                && self.nodes[i].refs == 0
        &&& forall|i: int|
            0 <= i < self.nodes.len() && new.alive@[i] && i != 0 && i != skip
                && (#[trigger] new.nodes[i]).child == NONE && new.nodes[i].refs == 0
                ==> self.nodes[i].child == NONE
        &&& new.env == self.env
        &&& new.state == self.state
        &&& new.que == self.que
        &&& new.cur_node == self.cur_node
        &&& new.at == self.at
        &&& new.pool == self.pool
        &&& new.turn == self.turn
        &&& new.ceiling == self.ceiling
        &&& new.seed == self.seed
        &&& new.depth == self.depth
        &&& new.rank == self.rank
        &&& new.paths == self.paths
        &&& new.init == self.init
        &&& new.cap == self.cap
        &&& new.deep == self.deep
    }

    /// Pruning keeps what the nodes record, and the candidates that wait keep
    /// their parents: a node with candidates waiting is never pruned.
    pub(crate) proof fn lemma_pruned(&self, new: &Self, extra: Seq<Cand<D::Op, D::Progress>>)
        requires
            exists|first: int| self.pruned(new, first),
            self.shape(),
        ensures
            self.sem_ok() ==> new.sem_ok(),
            self.state_ok() ==> new.state_ok(),
            self.pool_ok(extra) ==> new.pool_ok(extra),
            self.marks_ok() && self.tree_ok() ==> new.marks_ok(),
    {
        if self.marks_ok() && self.tree_ok() {
            assert forall|i: int| new.live(i) implies {
                &&& (#[trigger] new.nodes[i]).valid <= new.at
                &&& i != 0 && new.nodes[i].valid == new.at
                    ==> new.nodes[new.nodes[i].parent as int].valid == new.at
            } by {
                assert(self.live(i));
                assert(self.linked(i));
                assert(self.nodes[i].valid <= self.at);
                let p = self.nodes[i].parent as int;
                if i != 0 && new.nodes[i].valid == new.at {
                    assert(new.nodes[p].valid == self.nodes[p].valid);
                }
            }
        }
        if self.sem_ok() {
            assert forall|i: int| new.live(i) implies #[trigger] new.sound(i) by {
                assert(self.sound(i));
            }
        }
        if self.pool_ok(extra) {
            assert forall|b: int, k: int|
                0 <= b < new.pool.len() && 0 <= k < new.pool[b].len() implies new.backed(
                #[trigger] new.pool[b][k],
            ) by {
                assert(self.backed(self.pool[b][k]));
                lemma_cnt_pool_member(self.pool@, b, k);
            }
            assert forall|k: int| 0 <= k < extra.len() implies new.backed(#[trigger] extra[k]) by {
                assert(self.backed(extra[k]));
                lemma_cnt_member(extra, k);
            }
        }
    }

    /// Slot `idx` was unlinked from a consistent tree: the tree is
    /// consistent again.
    #[verifier::rlimit(60)]
    pub(crate) proof fn lemma_unlinked(&self, new: &Self, idx: int)
        requires
            self.tree_ok(),
            self.live(idx),
            idx != 0,
            self.nodes[idx].child == NONE,
            self.pruned_but(new, idx, self.nodes[idx].parent as int),
            new.alive@ == self.alive@.update(idx, false),
            new.free@ == self.free@.push(idx as u32),
            forall|i: int|
                0 <= i < self.nodes.len() ==> (#[trigger] new.nodes[i]).child == (if i
                    == self.nodes[idx].parent && self.nodes[idx].prev == NONE {
                    self.nodes[idx].next
                } else {
                    self.nodes[i].child
                }),
            forall|i: int|
                0 <= i < self.nodes.len() ==> (#[trigger] new.nodes[i]).next == (if i
                    == self.nodes[idx].prev {
                    self.nodes[idx].next
                } else {
                    self.nodes[i].next
                }),
            forall|i: int|
                0 <= i < self.nodes.len() ==> (#[trigger] new.nodes[i]).prev == (if i
                    == self.nodes[idx].next {
                    self.nodes[idx].prev
                } else {
                    self.nodes[i].prev
                }),
        ensures
            new.tree_ok(),
    {
        let n = self.nodes[idx];
        assert(self.linked(idx));
        assert(self.linked(0));
        assert(self.linked(n.parent as int));
        if n.prev != NONE {
            assert(self.linked(n.prev as int));
        }
        if n.next != NONE {
            assert(self.linked(n.next as int));
        }
        assert(new.nodes[0] == (Node {
            child: new.nodes[0].child,
            prev: new.nodes[0].prev,
            next: new.nodes[0].next,
            ..self.nodes[0]
        }));
        assert(new.shape());
        assert forall|k: int| 0 <= k < new.free.len() implies 0 < #[trigger] new.free[k]
            < new.nodes.len() && !new.alive@[new.free[k] as int] by {
            if k < self.free.len() {
                assert(new.free[k] == self.free[k]);
            }
        }
        assert forall|j: int, k: int| 0 <= j < k < new.free.len() implies new.free[j]
            != new.free[k] by {
            assert(new.free[j] == self.free[j]);
            if k < self.free.len() {
                assert(new.free[k] == self.free[k]);
            }
        }
        assert forall|i: int| 0 < i < new.nodes.len() && !new.alive@[i] implies #[trigger] new.pooled(
            i,
        ) by {
            if i == idx {
                assert(new.free[self.free.len() as int] == i);
            } else {
                assert(self.pooled(i));
                let k = choose|k: int| 0 <= k < self.free.len() && #[trigger] self.free[k] == i;
                assert(new.free[k] == i);
            }
        }
        assert forall|i: int| new.live(i) implies #[trigger] new.linked(i) by {
            assert(self.linked(i));
            let m = self.nodes[i];
            assert(new.nodes[i] == (Node {
                child: new.nodes[i].child,
                prev: new.nodes[i].prev,
                next: new.nodes[i].next,
                ..self.nodes[i]
            }));
            if i != 0 {
                self.lemma_first_child(i);
                assert(self.linked(m.parent as int));
                assert(m.parent != idx);
                if m.prev != NONE {
                    assert(self.linked(m.prev as int));
                }
            }
            if m.next != NONE {
                assert(self.linked(m.next as int));
            }
            if m.child != NONE {
                assert(self.linked(m.child as int));
            }
        }
    }

    /// Takes the childless node `idx`, for which no candidate waits, out of
    /// the tree and frees its slot; then does the same for its parent if
    /// that is now childless with nothing waiting, and so on upward. Every
    /// slot that leaves the tree goes to the free pool. The root is never
    /// freed: where the tree comes down to a root without children and
    /// without waiting candidates, the call fails.
    #[verifier::rlimit(60)]
    pub fn del_node(&mut self, idx: u32) -> (r: Result<(), SearchError>)
        requires
            old(self).tree_ok(),
            old(self).live(idx as int),
            idx != 0,
            old(self).slots()[idx as int].refs == 0,
            old(self).slots()[idx as int].child == NONE,
        ensures
            final(self).tree_ok(),
            old(self).pruned(final(self), idx as int),
            !final(self).live(idx as int),
            forall|i: int| old(self).live(i) && !final(self).live(i) ==> #[trigger] final(self).pooled(i),
            r is Err <==> final(self).slots()[0].child == NONE && final(self).slots()[0].refs == 0,
            r matches Err(e) ==> e == SearchError::TreeCollapsed,
            final(self).room() > old(self).room(),
            final(self).spare() > old(self).spare(),
    {
        let mut idx = idx;
        let ghost first = idx;
        let mut collapsed = false;
        loop
            invariant_except_break
                self.live(idx as int),
                idx != 0,
                self.nodes[idx as int].refs == 0,
                self.nodes[idx as int].child == NONE,
                idx != first ==> !self.live(first as int),
                old(self).pruned_but(self, first as int, idx as int),
                idx != first ==> old(self).nodes[idx as int].child != NONE,
                !collapsed,
            invariant
                self.room() >= old(self).room(),
                idx != first ==> self.room() > old(self).room(),
                0 <= first < self.nodes.len(),
                self.tree_ok(),
                old(self).tree_ok(),
            ensures
                old(self).pruned(self, first as int),
                !self.live(first as int),
                collapsed <==> self.nodes[0].child == NONE && self.nodes[0].refs == 0,
                self.room() > old(self).room(),
            decreases self.depth@[idx as int],
        {
            let ghost before = *self;
            proof {
                assert(self.linked(idx as int));
            }
            let prev = self.nodes[idx as usize].prev;
            let next = self.nodes[idx as usize].next;
            let parent = self.nodes[idx as usize].parent;
            if prev != NONE {
                self.nodes[prev as usize].next = next;
            } else {
                self.nodes[parent as usize].child = next;
            }
            if next != NONE {
                self.nodes[next as usize].prev = prev;
            }
            self.free.push(idx);
            proof {
                self.alive@ = self.alive@.update(idx as int, false);
                assert(before.linked(parent as int));
                if prev != NONE {
                    assert(before.linked(prev as int));
                }
                if next != NONE {
                    assert(before.linked(next as int));
                }
                assert(before.pruned_but(self, idx as int, parent as int));
                before.lemma_unlinked(self, idx as int);
                before.lemma_first_child(idx as int);
                assert(old(self).nodes[parent as int].child != NONE);
                assert(old(self).pruned_but(self, first as int, parent as int));
            }
            if self.nodes[parent as usize].child == NONE && self.nodes[parent as usize].refs == 0 {
                if parent == 0 {
                    collapsed = true;
                    break ;
                }
                proof {
                    before.lemma_first_child(idx as int);
                }
                idx = parent;
            } else {
                proof {
                    if parent != 0 {
                        self.lemma_root_has_child(parent as int);
                    }
                }
                break ;
            }
        }
        proof {
            assert forall|i: int| old(self).live(i) && !self.live(i) implies #[trigger] self.pooled(
                i,
            ) by {
                assert(self.linked(0));
            }
        }
        if collapsed {
            Err(SearchError::TreeCollapsed)
        } else {
            Ok(())
        }
    }

    /// The operations that lead from the root to node `idx`, in the order in
    /// which they are applied.
    pub fn restore(&self, idx: u32) -> (ret: Vec<D::Op>)
        requires
            self.tree_ok(),
            self.live(idx as int),
        ensures
            ret@ == self.path(idx as int),
    {
        let mut back: Vec<D::Op> = Vec::new();
        let mut i = idx;
        while self.nodes[i as usize].parent != NONE
            invariant
                self.tree_ok(),
                self.live(i as int),
                self.live(idx as int),
                self.paths@[idx as int] =~= self.paths@[i as int] + back@.reverse(),
            decreases self.depth@[i as int],
        {
            proof {
                assert(self.linked(i as int));
                assert(i != 0);
            }
            let ghost was = back@;
            back.push(self.nodes[i as usize].op);
            proof {
                let p = self.nodes[i as int].parent as int;
                let op = self.nodes[i as int].op;
                assert(back@.reverse() =~= seq![op] + was.reverse());
                assert(self.paths@[i as int] =~= self.paths@[p] + seq![op]);
            }
            i = self.nodes[i as usize].parent;
        }
        proof {
            assert(self.linked(i as int));
            assert(i == 0);
        }
        let mut ret: Vec<D::Op> = Vec::new();
        let mut k = back.len();
        while k > 0
            invariant
                k <= back.len(),
                ret@ =~= back@.reverse().subrange(0, back.len() - k),
            decreases k,
        {
            k = k - 1;
            ret.push(back[k]);
        }
        ret
    }
}


impl<D: Domain> BeamSearch<D> {
    /// The arena has a ceiling that its indices can reach, and the pool has
    /// a bucket for turn 0.
    pub open(crate) spec fn sized(&self) -> bool {
        &&& 1 <= self.ceiling < NONE
        &&& self.pool.len() >= 1
    }

    /// Starts over: the tree is the root alone again, standing for `state`,
    /// and no candidate waits. The tables, the ceiling, the number of
    /// buckets and the state of the random numbers stay.
    #[verifier::rlimit(60)]
    pub fn reset(&mut self, state: D, root_op: D::Op)
        requires
            old(self).sized(),
            state.wf(old(self).tables()),
        ensures
            final(self).wf(),
            final(self).sized(),
            final(self).origin() == state.view_of(),
            final(self).tables() == old(self).tables(),
            final(self).slots().len() == 1,
            final(self).slots()[0].op == root_op,
            final(self).slots()[0].progress == D::start(old(self).tables(), state.view_of()),
            final(self).slots()[0].child == NONE,
            final(self).slots()[0].refs == 0,
            final(self).slots()[0].valid == 1,
            final(self).buckets().len() == old(self).buckets().len(),
            forall|b: int|
                0 <= b < final(self).buckets().len() ==> (#[trigger] final(self).buckets()[b])@.len()
                    == 0,
            final(self).round() == 0,
            final(self).generation() == 1,
            final(self).limit() == old(self).limit(),
            final(self).spare() == 0,
    {
        let (progress, score, hash) = state.survey(&self.env);
        let node = Node {
            op: root_op,
            parent: NONE,
            child: NONE,
            prev: NONE,
            next: NONE,
            score,
            progress,
            hash,
            refs: 0,
            valid: 1,
        };
        proof {
            state.wf_inv(&self.env);
        }
        self.nodes.clear();
        self.nodes.push(node);
        self.free.clear();
        self.que.clear();
        let mut b: usize = 0;
        while b < self.pool.len()
            invariant
                b <= self.pool.len(),
                self.pool.len() == old(self).pool.len(),
                self.env == old(self).env,
                self.ceiling == old(self).ceiling,
                self.nodes@ =~= Seq::empty().push(node),
                self.free@.len() == 0,
                forall|k: int| 0 <= k < b ==> (#[trigger] self.pool[k])@.len() == 0,
            decreases self.pool.len() - b,
        {
            self.pool[b].clear();
            b = b + 1;
        }
        self.at = 1;
        self.turn = 0;
        self.cur_node = 0;
        let ghost v = state.view_of();
        self.state = state;
        proof {
            self.alive@ = Seq::empty().push(true);
            self.depth@ = Seq::empty().push(0nat);
            self.rank@ = Seq::empty().push(0nat);
            self.paths@ = Seq::empty().push(Seq::<D::Op>::empty());
            self.init@ = v;
            self.cap@ = 1nat;
            self.deep@ = 1nat;
            assert(self.linked(0));
            assert(self.sound(0));
            lemma_cnt_pool_zero(self.pool@, 0u32);
            assert(cnt(Seq::<Cand<D::Op, D::Progress>>::empty(), 0u32) == 0);
        }
    }
}


impl<D: Domain> BeamSearch<D> {
    /// The tables the search runs on.
    pub fn env(&self) -> (r: &D::Env)
        ensures
            r == self.tables(),
    {
        &self.env
    }

    /// The number of slots in the arena.
    pub fn len(&self) -> (r: usize)
        ensures
            r == self.slots().len(),
    {
        self.nodes.len()
    }

    /// The number of atomic moves that the newest leaves are away from the
    /// root.
    pub fn turn(&self) -> (r: usize)
        ensures
            r == self.round(),
    {
        self.turn
    }

    /// The current generation.
    pub fn at(&self) -> (r: usize)
        ensures
            r == self.generation(),
    {
        self.at
    }

    /// The candidate at place `k` of those that wait for turn `b`.
    pub fn waiting(&self, b: usize, k: usize) -> (r: Cand<D::Op, D::Progress>)
        requires
            b < self.buckets().len(),
            k < self.buckets()[b as int]@.len(),
        ensures
            r == self.buckets()[b as int]@[k as int],
    {
        self.pool[b][k]
    }

    /// The leaves that the last walk found without continuations.
    pub fn que(&self) -> (r: Vec<u32>)
        ensures
            r@ == self.que_of(),
    {
        let mut r: Vec<u32> = Vec::new();
        let mut i: usize = 0;
        while i < self.que.len()
            invariant
                i <= self.que.len(),
                r@ == self.que@.subrange(0, i as int),
            decreases self.que.len() - i,
        {
            r.push(self.que[i]);
            i = i + 1;
        }
        proof {
            assert(self.que@.subrange(0, self.que@.len() as int) =~= self.que@);
        }
        r
    }

    /// The node in slot `i`.
    pub fn node(&self, i: usize) -> (r: Node<D::Op, D::Progress>)
        requires
            i < self.slots().len(),
        ensures
            r == self.slots()[i as int],
    {
        self.nodes[i]
    }

    /// The number of candidates that wait for turn `b`.
    pub fn due(&self, b: usize) -> (r: usize)
        requires
            b < self.buckets().len(),
        ensures
            r == self.buckets()[b as int]@.len(),
    {
        self.pool[b].len()
    }

    /// Each node counts the candidates that wait for it: its reference count
    /// is the number of candidates in the pool of which it is the parent.
    pub proof fn refs_count_waiting(&self, x: int)
        requires
            self.wf(),
            0 <= x < self.slots().len(),
        ensures
            self.slots()[x].refs == cnt_pool(self.buckets(), x as u32),
    {
        assert(cnt(Seq::<Cand<D::Op, D::Progress>>::empty(), x as u32) == 0);
    }

    /// A slot that holds no node of the tree is in the free pool, and a slot
    /// of the free pool holds no node of the tree and is there once.
    pub proof fn dead_slots_are_pooled(&self, i: int)
        requires
            self.wf(),
            0 < i < self.slots().len(),
        ensures
            !self.live(i) <==> self.pooled(i),
            forall|j: int, k: int|
                0 <= j < k < self.free_slots().len() ==> self.free_slots()[j] != self.free_slots()[k],
    {
        if self.pooled(i) {
            let k = choose|k: int| 0 <= k < self.free.len() && #[trigger] self.free[k] == i;
            assert(!self.alive@[self.free[k] as int]);
        }
    }

    /// Between two rounds, a node without a child and without a waiting
    /// candidate is a leaf of the current generation, which the next walk
    /// visits: every other such node has been taken out of the tree.
    pub proof fn spent_nodes_are_new_leaves(&self, i: int)
        requires
            self.wf(),
            self.live(i),
            i != 0,
            self.slots()[i].child == NONE,
            self.slots()[i].refs == 0,
        ensures
            self.leaf_now(i),
    {
        assert(self.spent(i));
    }

    /// After a walk, a node without a child and without a waiting candidate
    /// is on the list of leaves that the next round takes out of the tree.
    pub proof fn spent_nodes_are_listed(&self, i: int)
        requires
            self.harvested(),
            self.live(i),
            i != 0,
            self.slots()[i].child == NONE,
            self.slots()[i].refs == 0,
        ensures
            self.que_of().contains(i as u32),
    {
        assert(self.spent(i));
    }

    /// Replaying the path of a node from the state the search started from
    /// is legal at every step and ends in a state of which the node holds
    /// the score and the fingerprint.
    pub proof fn path_reproduces(&self, i: int)
        requires
            self.wf(),
            self.live(i),
        ensures
            path_legal::<D>(self.tables(), self.origin(), self.path(i)),
            self.slots()[i].score == D::score_of(
                self.tables(),
                replay::<D>(self.tables(), self.origin(), self.path(i)),
                self.slots()[i].progress,
            ),
            self.slots()[i].hash == D::hash_of(
                self.tables(),
                replay::<D>(self.tables(), self.origin(), self.path(i)),
                self.slots()[i].progress,
            ),
    {
        assert(self.sound(i));
    }
}


impl<D: Domain> BeamSearch<D> {
    /// A node that is marked for the current generation is not pruned, as
    /// long as pruning starts at a node that is not marked.
    #[verifier::rlimit(60)]
    pub(crate) proof fn lemma_marked_stays(&self, new: &Self, first: int, fresh: Seq<int>, d: int)
        requires
            self.tree_ok(),
            new.tree_ok(),
            self.pruned(new, first),
            self.live(first),
            self.nodes[first].valid != self.at,
            self.fresh_ok(fresh),
            self.live(d),
            self.nodes[d].valid == self.at,
        ensures
            new.live(d),
        decreases self.deep@ - self.depth@[d],
    {
        assert(self.linked(d));
        if !new.live(d) {
            assert(new.alive@[d] == false);
            assert(self.nodes[d].child != NONE);
            if fresh.contains(d) {
                let k = choose|k: int| 0 <= k < fresh.len() && fresh[k] == d;
                assert(self.nodes[fresh[k]].child == NONE);
            }
            assert(self.marked_child(d));
            let c = choose|c: int|
                self.live(c) && c != 0 && (#[trigger] self.nodes[c]).parent == d && self.nodes[c].valid
                    == self.at;
            assert(self.linked(c));
            self.lemma_marked_stays(new, first, fresh, c);
            assert(new.linked(c));
            assert(new.nodes[c] == (Node {
                child: new.nodes[c].child,
                prev: new.nodes[c].prev,
                next: new.nodes[c].next,
                ..self.nodes[c]
            }));
        }
    }

    /// Pruning that starts at a node that is not marked leaves the marked
    /// nodes, and the fresh ones among them, as they are.
    #[verifier::rlimit(60)]
    pub(crate) proof fn lemma_pruned_fresh(&self, new: &Self, first: int, fresh: Seq<int>)
        requires
            self.tree_ok(),
            new.tree_ok(),
            self.pruned(new, first),
            self.live(first),
            self.nodes[first].valid != self.at,
            self.fresh_ok(fresh),
        ensures
            new.fresh_ok(fresh),
    {
        assert forall|k: int| 0 <= k < fresh.len() implies {
            let f = #[trigger] fresh[k];
            &&& new.live(f)
            &&& new.nodes[f].valid == new.at
            &&& new.nodes[f].child == NONE
            &&& new.nodes[f].refs == 0
        } by {
            let f = fresh[k];
            self.lemma_marked_stays(new, first, fresh, f);
            assert(new.nodes[f] == (Node {
                child: new.nodes[f].child,
                prev: new.nodes[f].prev,
                next: new.nodes[f].next,
                ..self.nodes[f]
            }));
        }
        assert forall|i: int| new.live(i) && (#[trigger] new.nodes[i]).valid
            == new.at implies fresh.contains(
            i,
        ) || new.marked_child(i) by {
            assert(self.live(i));
            assert(self.nodes[i].valid == self.at);
            if !fresh.contains(i) {
                assert(self.marked_child(i));
                let c = choose|c: int|
                    self.live(c) && c != 0 && (#[trigger] self.nodes[c]).parent == i
                        && self.nodes[c].valid == self.at;
                self.lemma_marked_stays(new, first, fresh, c);
                assert(new.live(c) && c != 0 && new.nodes[c].parent == i && new.nodes[c].valid
                    == new.at);
            }
        }
    }

    /// The leaves of the current generation are among the fresh nodes, so
    /// there are no more of them.
    pub(crate) proof fn lemma_leaves_bounded(&self, fresh: Seq<int>)
        requires
            self.tree_ok(),
            self.fresh_ok(fresh),
        ensures
            self.now_leaves().finite(),
            self.now_leaves().len() <= fresh.len(),
    {
        assert forall|i: int| self.now_leaves().contains(i) implies fresh.to_set().contains(i) by {
            if !fresh.contains(i) {
                assert(self.marked_child(i));
                let c = choose|c: int|
                    self.live(c) && c != 0 && (#[trigger] self.nodes[c]).parent == i
                        && self.nodes[c].valid == self.at;
                self.lemma_first_child(c);
            }
        }
        vstd::seq_lib::seq_to_set_is_finite(fresh);
        fresh.lemma_cardinality_of_set();
        vstd::set_lib::lemma_len_subset(self.now_leaves(), fresh.to_set());
    }
}

} // verus!
