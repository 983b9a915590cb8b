//! The contract between the search engine and the puzzle it searches.
//!
//! The engine never looks inside a state. It drives it forward and backward
//! through [`Domain::apply`] and [`Domain::revert`], asks it for the moves that
//! are open from where it stands, and keeps, for every node of its tree, the
//! score, the fingerprint and the progress that the domain reported.

use vstd::prelude::*;

verus! {

/// Largest absolute score a domain may report. It leaves room for the ranking
/// jitter that the engine adds on top.
pub const SCORE_LIMIT: i64 = 0x2000_0000_0000_0000;

/// One continuation that a domain offers from the state it was asked about.
#[derive(Clone, Copy)]
pub struct Move<O, P> {
    /// The bundle of atomic moves that makes the transition.
    pub op: O,
    /// How many atomic moves the bundle holds.
    pub turns: usize,
    /// Score of the state after the bundle.
    pub score: i64,
    /// Fingerprint of the state after the bundle.
    pub hash: u64,
    /// Progress of the state after the bundle.
    pub progress: P,
    /// Value by which two continuations count as the same.
    pub key: u64,
}

/// A reversible puzzle state, as the search engine needs it.
pub trait Domain: Sized {
    /// Tables that are built once per problem instance.
    type Env;

    /// A bundle of one or more atomic moves, applied as one transition.
    type Op: Copy;

    /// What a node remembers of how far its state has come.
    type Progress: Copy;

    /// The logical contents of a state.
    type V;

    /// The logical contents of this state.
    spec fn view_of(&self) -> Self::V;

    /// The representation of this state is consistent with `env`.
    spec fn wf(&self, env: &Self::Env) -> bool;

    /// What holds of the logical contents of every well-formed state.
    spec fn inv(env: &Self::Env, s: Self::V) -> bool;

    /// `op` may be applied to `s`.
    spec fn legal(env: &Self::Env, s: Self::V, op: Self::Op) -> bool;

    /// The contents after `op` is applied to `s`.
    spec fn step(env: &Self::Env, s: Self::V, op: Self::Op) -> Self::V;

    /// The contents before `op` was applied, given the contents after it.
    spec fn unstep(env: &Self::Env, s: Self::V, op: Self::Op) -> Self::V;

    /// `op` is the operation that led to `s`.
    spec fn undoable(env: &Self::Env, s: Self::V, op: Self::Op) -> bool;

    /// Number of atomic moves in `op`.
    spec fn turns_of(env: &Self::Env, op: Self::Op) -> nat;

    /// `p` describes how far `s` has come.
    spec fn tracks(env: &Self::Env, s: Self::V, p: Self::Progress) -> bool;

    /// `p` says that the goal is reached.
    spec fn goal(env: &Self::Env, p: Self::Progress) -> bool;

    /// Score of `s` at progress `p`; lower is better.
    spec fn score_of(env: &Self::Env, s: Self::V, p: Self::Progress) -> int;

    /// Fingerprint of `s` at progress `p`.
    spec fn hash_of(env: &Self::Env, s: Self::V, p: Self::Progress) -> u64;

    /// The moves that are open from contents `s` at progress `p`, in the
    /// order in which they are offered.
    spec fn moves(env: &Self::Env, s: Self::V, p: Self::Progress) -> Seq<
        Move<Self::Op, Self::Progress>,
    >;

    /// The progress that a survey of contents `s` finds.
    spec fn start(env: &Self::Env, s: Self::V) -> Self::Progress;

    /// A well-formed state has contents that satisfy the invariant.
    proof fn wf_inv(&self, env: &Self::Env)
        requires
            self.wf(env),
        ensures
            Self::inv(env, self.view_of()),
    ;

    /// Reverting an operation right after applying it gives back the state it
    /// was applied to, and applying a legal operation keeps the invariant.
    proof fn step_unstep(env: &Self::Env, s: Self::V, op: Self::Op)
        requires
            Self::inv(env, s),
            Self::legal(env, s, op),
        ensures
            Self::inv(env, Self::step(env, s, op)),
            Self::undoable(env, Self::step(env, s, op), op),
            Self::unstep(env, Self::step(env, s, op), op) == s,
            Self::turns_of(env, op) >= 1,
    ;

    /// Moves the state forward by `op`.
    fn apply(&mut self, env: &Self::Env, op: &Self::Op)
        requires
            old(self).wf(env),
            Self::legal(env, old(self).view_of(), *op),
        ensures
            final(self).wf(env),
            final(self).view_of() == Self::step(env, old(self).view_of(), *op),
    ;

    /// Takes back `op`, the operation applied last.
    fn revert(&mut self, env: &Self::Env, op: &Self::Op)
        requires
            old(self).wf(env),
            Self::undoable(env, old(self).view_of(), *op),
        ensures
            final(self).wf(env),
            final(self).view_of() == Self::unstep(env, old(self).view_of(), *op),
    ;

    /// Progress, score and fingerprint of this state, computed from nothing
    /// but the state itself.
    fn survey(&self, env: &Self::Env) -> (r: (Self::Progress, i64, u64))
        requires
            self.wf(env),
        ensures
            r.0 == Self::start(env, self.view_of()),
            Self::tracks(env, self.view_of(), r.0),
            r.1 == Self::score_of(env, self.view_of(), r.0),
            r.2 == Self::hash_of(env, self.view_of(), r.0),
            -SCORE_LIMIT <= r.1 <= SCORE_LIMIT,
    ;

    /// Whether `p` says that the goal is reached.
    fn is_goal(env: &Self::Env, p: &Self::Progress) -> (b: bool)
        ensures
            b == Self::goal(env, *p),
    ;

    /// Appends to `out` the moves that are open from this state, each with
    /// the score, fingerprint and progress of the state it leads to. The
    /// state is tried out in place and is back where it was on return.
    fn append_cands(
        &mut self,
        env: &Self::Env,
        progress: &Self::Progress,
        score: i64,
        hash: u64,
        out: &mut Vec<Move<Self::Op, Self::Progress>>,
    )
        requires
            old(self).wf(env),
            Self::tracks(env, old(self).view_of(), *progress),
            !Self::goal(env, *progress),
            score == Self::score_of(env, old(self).view_of(), *progress),
            hash == Self::hash_of(env, old(self).view_of(), *progress),
        ensures
            final(self).wf(env),
            final(self).view_of() == old(self).view_of(),
            final(out)@ == old(out)@ + Self::moves(env, old(self).view_of(), *progress),
            final(out)@.len() >= old(out)@.len(),
            final(out)@.subrange(0, old(out)@.len() as int) == old(out)@,
            forall|k: int|
                old(out)@.len() <= k < final(out)@.len() ==> {
                    let m = #[trigger] final(out)@[k];
                    let s = old(self).view_of();
                    &&& Self::legal(env, s, m.op)
                    &&& m.turns == Self::turns_of(env, m.op)
                    &&& Self::tracks(env, Self::step(env, s, m.op), m.progress)
                    &&& m.score == Self::score_of(env, Self::step(env, s, m.op), m.progress)
                    &&& m.hash == Self::hash_of(env, Self::step(env, s, m.op), m.progress)
                    &&& -SCORE_LIMIT <= m.score <= SCORE_LIMIT
                },
    ;
}

/// `m` is a legal continuation of `s`, and what it reports of the state it
/// leads to is what the domain's own functions say of that state.
pub open spec fn offered<D: Domain>(env: &D::Env, s: D::V, m: Move<D::Op, D::Progress>) -> bool {
    &&& D::legal(env, s, m.op)
    &&& m.turns == D::turns_of(env, m.op)
    &&& D::tracks(env, D::step(env, s, m.op), m.progress)
    &&& m.score == D::score_of(env, D::step(env, s, m.op), m.progress)
    &&& m.hash == D::hash_of(env, D::step(env, s, m.op), m.progress)
    &&& -SCORE_LIMIT <= m.score <= SCORE_LIMIT
}

/// The contents reached from `init` by the operations of `path`, in order.
pub open spec fn replay<D: Domain>(env: &D::Env, init: D::V, path: Seq<D::Op>) -> D::V
    decreases path.len(),
{
    if path.len() == 0 {
        init
    } else {
        D::step(env, replay::<D>(env, init, path.drop_last()), path.last())
    }
}

/// Every operation of `path` is legal where it is applied, starting from `init`.
pub open spec fn path_legal<D: Domain>(env: &D::Env, init: D::V, path: Seq<D::Op>) -> bool
    decreases path.len(),
{
    path.len() > 0 ==> {
        &&& path_legal::<D>(env, init, path.drop_last())
        &&& D::legal(env, replay::<D>(env, init, path.drop_last()), path.last())
    }
}

/// Reverting an operation right after applying it leaves a state as it was:
/// the same contents, hence the same score, the same fingerprint and the
/// same moves.
pub proof fn revert_undoes_apply<D: Domain>(env: &D::Env, s: D::V, op: D::Op, p: D::Progress)
    requires
        D::inv(env, s),
        D::legal(env, s, op),
    ensures
        D::unstep(env, D::step(env, s, op), op) == s,
        D::score_of(env, D::unstep(env, D::step(env, s, op), op), p) == D::score_of(env, s, p),
        D::hash_of(env, D::unstep(env, D::step(env, s, op), op), p) == D::hash_of(env, s, p),
{
    D::step_unstep(env, s, op);
}

/// Two paths that end in the same contents end in the same fingerprint and
/// the same score.
pub proof fn same_contents_same_hash<D: Domain>(
    env: &D::Env,
    init: D::V,
    a: Seq<D::Op>,
    b: Seq<D::Op>,
    p: D::Progress,
)
    requires
        replay::<D>(env, init, a) == replay::<D>(env, init, b),
    ensures
        D::hash_of(env, replay::<D>(env, init, a), p) == D::hash_of(
            env,
            replay::<D>(env, init, b),
            p,
        ),
        D::score_of(env, replay::<D>(env, init, a), p) == D::score_of(
            env,
            replay::<D>(env, init, b),
            p,
        ),
{
}

} // verus!
