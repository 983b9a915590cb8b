use beam_search::beam::{BeamSearch, SearchError, NONE};
use beam_search::clock::Clock;
use beam_search::domain::{Domain, Move};
use beam_search::driver::{select, Config, Outcome};
use beam_search::pyramid::{flatten, keep_shorter, root_op, solve, State};
use beam_search::tables::Input;
use beam_search::walker::fits;

fn config(width: usize) -> Config {
    Config { width, jitter_from: 40, jitter_to: 20, jitter_span: 1900, poll_every: 32 }
}

fn engine(n: usize, grid: Vec<usize>, ceiling: usize, horizon: usize) -> BeamSearch<State> {
    let input = Input::input(n, grid).unwrap();
    let state = State::new(&input);
    BeamSearch::new(input, state, root_op(), ceiling, horizon)
}

fn at_rest(input: &Input, state: &State) -> bool {
    (0..input.len()).all(|k| state.isok(input, k))
}

#[test]
fn goal_at_start_gives_empty_path() {
    let mut solver = engine(1, vec![0], 100, 50);
    let clock = Clock::new(60_000);
    match solver.solve(&config(4), &clock) {
        Ok(Outcome::Found(a)) => assert_eq!(a.path.len(), 0),
        _ => panic!("expected an answer"),
    }
    let mut solver = engine(3, vec![0, 1, 2, 3, 4, 5], 100, 50);
    match solver.solve(&config(4), &clock) {
        Ok(Outcome::Found(a)) => {
            assert_eq!(a.path.len(), 0);
            assert_eq!(a.progress.n, 6);
        }
        _ => panic!("expected an answer"),
    }
}

#[test]
fn one_move_from_goal_gives_one_operation() {
    let mut solver = engine(2, vec![1, 0, 2], 100, 50);
    // A deadline that has passed already: the answer is found before it is looked at.
    let clock = Clock::new(0);
    match solver.solve(&config(4), &clock) {
        Ok(Outcome::Found(a)) => {
            assert_eq!(a.path.len(), 1);
            assert_eq!(a.path[0].first, (1, 0));
            assert_eq!(a.path[0].second, (3, 3));
            assert_eq!(a.progress.n, 3);
            let moves = flatten(solver.env(), &a.path);
            assert_eq!(moves, vec![(1, 0)]);
        }
        _ => panic!("expected an answer"),
    }
}

#[test]
fn tiny_ceiling_raises_resource_exhaustion() {
    let mut solver = engine(3, vec![3, 1, 2, 0, 4, 5], 1, 50);
    let clock = Clock::new(60_000);
    match solver.solve(&config(4), &clock) {
        Err(e) => assert_eq!(e, SearchError::ResourceExhausted),
        Ok(_) => panic!("expected the arena to run out"),
    }
    // The tree is still the root alone.
    assert_eq!(solver.len(), 1);
    assert_eq!(solver.node(0).child, NONE);
    // With room for one node more the same search goes on past the first round.
    let mut solver = engine(3, vec![3, 1, 2, 0, 4, 5], 2, 50);
    solver.enum_cands(10).unwrap();
    let mut bucket = solver.take_due();
    let keep = select(&mut bucket, 1);
    assert_eq!(solver.update(bucket, &keep), Ok(()));
    assert_eq!(solver.len(), 2);
}

#[test]
fn an_arena_without_room_for_the_first_round_fails() {
    // The first round keeps both single swaps; the arena has room for one node more.
    let mut solver = engine(3, vec![3, 1, 2, 0, 4, 5], 2, 50);
    let clock = Clock::new(0);
    assert!(matches!(solver.solve(&config(4), &clock), Err(SearchError::ResourceExhausted)));
    // The first of them became a node before the arena was found full.
    assert_eq!(solver.len(), 2);
    assert_eq!(solver.turn(), 1);
    // With room for both, the first round goes through.
    let mut solver = engine(3, vec![3, 1, 2, 0, 4, 5], 3, 50);
    solver.enum_cands(10).unwrap();
    assert!(matches!(solver.finish_round(&config(4), false), Ok(None)));
    assert_eq!((solver.len(), solver.turn()), (3, 1));
}

#[test]
fn a_root_at_the_goal_leaves_the_engine_as_it_was() {
    let mut solver = engine(3, vec![0, 1, 2, 3, 4, 5], 100, 50);
    let clock = Clock::new(0);
    match solver.solve(&config(4), &clock) {
        Ok(Outcome::Found(a)) => assert_eq!((a.path.len(), a.progress.n), (0, 6)),
        _ => panic!("expected an answer"),
    }
    assert_eq!((solver.len(), solver.turn(), solver.at()), (1, 0, 1));
    assert_eq!((solver.node(0).refs, solver.node(0).valid, solver.due(1)), (0, 1, 0));
}

#[test]
fn short_horizon_raises_resource_exhaustion() {
    let mut solver = engine(3, vec![3, 1, 2, 0, 4, 5], 100, 0);
    let clock = Clock::new(60_000);
    match solver.solve(&config(4), &clock) {
        Err(e) => assert_eq!(e, SearchError::ResourceExhausted),
        Ok(_) => panic!("expected the pool to run out"),
    }
}

#[test]
fn passed_deadline_is_reported() {
    let mut solver = engine(3, vec![3, 1, 2, 0, 4, 5], 100, 50);
    let clock = Clock::new(0);
    let cfg = Config { width: 4, jitter_from: 40, jitter_to: 20, jitter_span: 1900, poll_every: 1 };
    match solver.solve(&cfg, &clock) {
        Ok(Outcome::DeadlineExceeded) => {}
        _ => panic!("expected the deadline to end the search"),
    }
}

#[test]
fn width_zero_leaves_the_root_bare() {
    let mut solver = engine(3, vec![3, 1, 2, 0, 4, 5], 100, 50);
    let clock = Clock::new(60_000);
    match solver.solve(&config(0), &clock) {
        Err(e) => assert_eq!(e, SearchError::TreeCollapsed),
        Ok(_) => panic!("expected the tree to collapse"),
    }
    // Every candidate was dropped: the root has no child and counts nothing.
    assert_eq!(solver.len(), 1);
    assert_eq!(solver.node(0).child, NONE);
    assert_eq!(solver.node(0).refs, 0);
    // The first round dropped the two single swaps; the double one waited a round more.
    assert_eq!(solver.turn(), 2);
}

#[test]
fn answer_replays_to_its_recorded_score_and_hash() {
    let grid = vec![3, 1, 2, 0, 4, 5];
    let mut solver = engine(3, grid.clone(), 1000, 50);
    let clock = Clock::new(60_000);
    let a = match solver.solve(&config(8), &clock) {
        Ok(Outcome::Found(a)) => a,
        _ => panic!("expected an answer"),
    };
    let input = Input::input(3, grid).unwrap();
    let mut state = State::new(&input);
    for op in a.path.iter() {
        state.apply(&input, op);
    }
    assert!(at_rest(&input, &state));
    assert_eq!(a.progress.n, 6);
    assert_eq!(a.score, -state.score(&input, 6));
    assert_eq!(a.hash, state.hash(&input, 6));
    // Three swaps are needed and the search finds three.
    assert_eq!(flatten(&input, &a.path).len(), 3);
}

#[test]
fn larger_puzzle_is_solved() {
    let n = 5;
    let len = n * (n + 1) / 2;
    let grid: Vec<usize> = (0..len).rev().collect();
    let mut solver = engine(n, grid.clone(), 100_000, 400);
    let clock = Clock::new(60_000);
    let best = solve(&mut solver, &config(30), &clock, 2).unwrap().expect("an answer");
    let input = Input::input(n, grid).unwrap();
    let mut state = State::new(&input);
    for m in best.iter() {
        assert!(m.0 < len && m.1 < len);
        state.swap(&input, *m);
    }
    assert!(at_rest(&input, &state));
}

#[test]
fn no_attempts_gives_no_answer() {
    let mut solver = engine(2, vec![1, 0, 2], 100, 50);
    let clock = Clock::new(60_000);
    assert_eq!(solve(&mut solver, &config(4), &clock, 0).unwrap(), None);
    assert_eq!(solve(&mut solver, &config(4), &clock, 1).unwrap(), Some(vec![(1, 0)]));
}

#[test]
fn refs_count_the_waiting_candidates() {
    let mut solver = engine(3, vec![3, 1, 2, 0, 4, 5], 100, 50);
    solver.enum_cands(10).unwrap();
    // Ball 0 lies in cell 3: it can go up to cell 1 or right to cell 4, one
    // swap each, or up to cell 1 while ball 3 comes down, two swaps.
    assert_eq!(solver.due(1), 2);
    assert_eq!(solver.due(2), 1);
    assert_eq!(solver.due(3), 0);
    assert_eq!(solver.node(0).refs, 3);
    assert_eq!(solver.waiting(2, 0).parent, 0);
    assert_eq!(solver.waiting(2, 0).turns, 2);
    assert_eq!(solver.waiting(1, 0).parent, 0);
    assert_eq!(solver.waiting(1, 0).op.first, (3, 1));
    assert_eq!(solver.waiting(1, 1).op.first, (3, 4));
    assert!(solver.que().is_empty());
}

#[test]
fn a_round_keeps_at_most_width_leaves() {
    let mut solver = engine(4, vec![9, 8, 7, 6, 5, 4, 3, 2, 1, 0], 1000, 50);
    let width = 2;
    for _ in 0..6 {
        solver.enum_cands(10).unwrap();
        let mut bucket = solver.take_due();
        if bucket.iter().any(|c| c.progress.n == 10) {
            break;
        }
        let keep = select(&mut bucket, width);
        assert!(keep.iter().filter(|k| **k).count() <= width);
        solver.update(bucket, &keep).unwrap();
        let fresh = (0..solver.len())
            .filter(|i| {
                let n = solver.node(*i);
                n.valid == solver.at() && n.child == NONE
            })
            .count();
        assert!(fresh <= width);
        assert!(fresh >= 1);
    }
}

#[test]
fn add_and_delete_relink_the_siblings() {
    let mut solver = engine(3, vec![3, 1, 2, 0, 4, 5], 100, 50);
    solver.enum_cands(10).unwrap();
    let bucket = solver.take_due();
    assert_eq!(bucket.len(), 2);
    let keep = vec![true, true];
    solver.update(bucket.clone(), &keep).unwrap();
    // The second candidate became the first child, the first its sibling.
    assert_eq!(solver.len(), 3);
    let root = solver.node(0);
    assert_eq!(root.child, 2);
    // The candidate of two swaps still waits.
    assert_eq!(root.refs, 1);
    assert_eq!(root.valid, 2);
    assert_eq!(solver.node(2).next, 1);
    assert_eq!(solver.node(2).prev, NONE);
    assert_eq!(solver.node(1).prev, 2);
    assert_eq!(solver.node(1).next, NONE);
    assert_eq!(solver.node(1).parent, 0);
    assert_eq!(solver.node(1).valid, 2);
    assert_eq!(solver.restore(1), vec![bucket[0].op]);
    assert_eq!(solver.restore(0), vec![]);
    // Taking node 2 out makes node 1 the only child.
    assert_eq!(solver.del_node(2), Ok(()));
    assert_eq!(solver.node(0).child, 1);
    assert_eq!(solver.node(1).prev, NONE);
    // Taking node 1 out too leaves a root without children, for which a
    // candidate still waits: the tree has not collapsed.
    assert_eq!(solver.del_node(1), Ok(()));
    assert_eq!(solver.node(0).child, NONE);
    assert_eq!(solver.node(0).refs, 1);
}

#[test]
fn freed_slots_are_used_again() {
    let mut solver = engine(3, vec![3, 1, 2, 0, 4, 5], 100, 50);
    solver.enum_cands(10).unwrap();
    let bucket = solver.take_due();
    solver.update(bucket.clone(), &vec![true, true]).unwrap();
    assert_eq!(solver.len(), 3);
    assert_eq!(solver.del_node(1), Ok(()));
    // The slot of the node that left is the next to be taken.
    let mut again = bucket[0];
    again.parent = 0;
    solver.add_node(again).unwrap();
    assert_eq!(solver.len(), 3);
    assert_eq!(solver.node(0).child, 1);
    assert_eq!(solver.node(1).next, 2);
}

#[test]
fn taking_out_the_last_descendant_of_the_root_fails() {
    let mut solver = engine(3, vec![3, 1, 2, 0, 4, 5], 100, 50);
    solver.enum_cands(10).unwrap();
    let bucket = solver.take_due();
    // One candidate becomes a node; from then on every candidate is dropped.
    solver.update(bucket, &vec![true, false]).unwrap();
    let mut failed = None;
    for _ in 0..10 {
        solver.enum_cands(10).unwrap();
        let bucket = solver.take_due();
        let keep = vec![false; bucket.len()];
        match solver.update(bucket, &keep) {
            Ok(()) => {}
            Err(e) => {
                failed = Some(e);
                break;
            }
        }
    }
    assert_eq!(failed, Some(SearchError::TreeCollapsed));
    // The root is left without children and without waiting candidates.
    assert_eq!(solver.node(0).child, NONE);
    assert_eq!(solver.node(0).refs, 0);
}

#[test]
fn a_passed_deadline_ends_the_round_and_changes_nothing() {
    let mut solver = engine(3, vec![3, 1, 2, 0, 4, 5], 100, 50);
    solver.enum_cands(10).unwrap();
    match solver.finish_round(&config(4), true) {
        Ok(Some(Outcome::DeadlineExceeded)) => {}
        _ => panic!("expected the deadline to end the round"),
    }
    assert_eq!(solver.turn(), 0);
    assert_eq!(solver.due(1), 2);
    assert_eq!(solver.len(), 1);
    // With time left the same round grows the tree and the search goes on.
    match solver.finish_round(&config(4), false) {
        Ok(None) => {}
        _ => panic!("expected the search to go on"),
    }
    assert_eq!(solver.turn(), 1);
    assert_eq!(solver.due(1), 0);
    assert_eq!(solver.len(), 3);
}

#[test]
fn a_round_answers_with_the_first_candidate_at_the_goal() {
    let mut solver = engine(2, vec![1, 0, 2], 100, 50);
    solver.enum_cands(10).unwrap();
    let first = (0..solver.due(1)).find(|k| solver.waiting(1, *k).progress.n == 3).unwrap();
    let cand = solver.waiting(1, first);
    match solver.finish_round(&config(4), false) {
        Ok(Some(Outcome::Found(a))) => {
            assert_eq!(a.path.len(), 1);
            assert_eq!(a.path[0].first, cand.op.first);
            assert_eq!((a.score, a.hash, a.progress.n), (cand.score, cand.hash, 3));
        }
        _ => panic!("expected an answer"),
    }
    // The candidates that were due are taken, and the turn is not counted.
    assert_eq!(solver.due(1), 0);
    assert_eq!(solver.turn(), 0);
}

#[test]
fn the_shorter_answer_is_kept_and_the_earlier_of_equals() {
    let one = vec![(0, 1)];
    let other = vec![(1, 2)];
    let two = vec![(0, 1), (1, 2)];
    assert_eq!(keep_shorter(None, two.clone()), two);
    assert_eq!(keep_shorter(Some(two.clone()), one.clone()), one);
    assert_eq!(keep_shorter(Some(one.clone()), two.clone()), one);
    assert_eq!(keep_shorter(Some(one.clone()), other.clone()), one);
    assert_eq!(keep_shorter(Some(other.clone()), one.clone()), other);
}

#[test]
fn reset_starts_over() {
    let mut solver = engine(3, vec![3, 1, 2, 0, 4, 5], 100, 50);
    solver.enum_cands(10).unwrap();
    let bucket = solver.take_due();
    let keep = vec![true, false];
    solver.update(bucket, &keep).unwrap();
    assert_eq!(solver.len(), 2);
    assert_eq!(solver.turn(), 1);
    let state = State::new(solver.env());
    solver.reset(state, root_op());
    assert_eq!(solver.len(), 1);
    assert_eq!(solver.turn(), 0);
    assert_eq!(solver.at(), 1);
    assert_eq!(solver.due(1), 0);
    assert_eq!(solver.node(0).refs, 0);
    assert_eq!(solver.node(0).child, NONE);
}

#[test]
fn candidates_carry_score_plus_jitter_in_the_order_of_the_moves() {
    let mut solver = engine(3, vec![3, 1, 2, 0, 4, 5], 100, 50);
    solver.enum_cands(10).unwrap();
    // The draws are the first three numbers of the generator, modulo 10: 2, 4, 4.
    let up = solver.waiting(1, 0);
    assert_eq!((up.score, up.eval_score, up.turns), (-22, -20, 1));
    let right = solver.waiting(1, 1);
    assert_eq!((right.score, right.eval_score, right.turns), (-21, -17, 1));
    let hop = solver.waiting(2, 0);
    assert_eq!((hop.score, hop.eval_score, hop.turns), (-26, -22, 2));
    // The root was visited: it has lost its mark and counts its three candidates.
    assert_eq!(solver.node(0).valid, 0);
    assert_eq!(solver.node(0).refs, 3);
}

#[test]
fn a_move_without_a_bucket_files_nothing() {
    // Turns 0 and 1 have buckets; the move of two swaps is due at turn 2.
    let mut solver = engine(3, vec![3, 1, 2, 0, 4, 5], 100, 1);
    assert_eq!(solver.enum_cands(10), Err(SearchError::ResourceExhausted));
    // Nothing was filed, and the leaf counts nothing.
    assert_eq!(solver.due(1), 0);
    assert_eq!(solver.node(0).refs, 0);
    assert_eq!(solver.node(0).valid, 1);
}

#[test]
fn filing_leaves_the_counting_to_the_walk() {
    let mut solver = engine(3, vec![3, 1, 2, 0, 4, 5], 100, 50);
    let root = solver.node(0);
    assert_eq!(solver.append_cands(0, 10), Ok(3));
    // The candidates wait in their buckets; the arena is as it was.
    assert_eq!((solver.due(1), solver.due(2)), (2, 1));
    let after = solver.node(0);
    assert_eq!((after.refs, after.valid, after.child), (root.refs, root.valid, root.child));
    assert_eq!(solver.len(), 1);
}

#[test]
fn the_first_move_that_does_not_fit_is_found() {
    let m = |turns: usize| Move { op: 0u8, turns, score: 0, hash: 0, progress: 0u8, key: 0 };
    let moves = vec![m(1), m(2), m(1)];
    assert_eq!(fits(&moves, 3, 0), 3);
    assert_eq!(fits(&moves, 2, 0), 1);
    assert_eq!(fits(&moves, 1, 0), 0);
    // A leaf that counts all but two can take two more.
    assert_eq!(fits(&moves, 3, usize::MAX - 2), 2);
    assert_eq!(fits(&Vec::<Move<u8, u8>>::new(), 0, usize::MAX), 0);
}

#[test]
fn all_at_rest_is_answered_without_swaps_at_the_first_attempt() {
    let mut solver = engine(3, vec![0, 1, 2, 3, 4, 5], 100, 50);
    let clock = Clock::new(0);
    assert_eq!(solve(&mut solver, &config(4), &clock, usize::MAX).unwrap(), Some(vec![]));
    assert_eq!(solve(&mut solver, &config(4), &clock, 0).unwrap(), None);
}
