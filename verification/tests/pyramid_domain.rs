use beam_search::domain::{Domain, Move};
use beam_search::pyramid::{Progress, State, ENDED_BONUS, NO_POS};
use beam_search::tables::{Input, InputError, Op, MAX_ROWS};

fn sample() -> (Input, State) {
    let input = Input::input(3, vec![3, 1, 2, 0, 4, 5]).unwrap();
    let state = State::new(&input);
    (input, state)
}

#[test]
fn tables_of_three_rows() {
    let (input, _) = sample();
    assert_eq!(input.n(), 3);
    assert_eq!(input.len(), 6);
    assert_eq!(input.to_pos(0), (0, 0));
    assert_eq!(input.to_pos(4), (2, 1));
    assert_eq!(input.to_pos(5), (2, 2));
    assert_eq!(input.height(0), 0);
    assert_eq!(input.height(2), 1);
    assert_eq!(input.height(4), 2);
    let around: Vec<usize> = (0..6).map(|d| input.dd(4, d)).collect();
    assert_eq!(around, vec![1, 2, 5, 6, 6, 3]);
    let around: Vec<usize> = (0..6).map(|d| input.dd(0, d)).collect();
    assert_eq!(around, vec![6, 6, 6, 2, 1, 6]);
    assert_eq!(input.dd2(4, 0), (6, Op { first: (6, 1), second: (1, 4) }));
    assert_eq!(input.dd2(4, 1), (0, Op { first: (0, 2), second: (2, 4) }));
    assert_eq!(input.dd2(4, 2), (0, Op { first: (0, 1), second: (1, 4) }));
    assert_eq!(input.dd2(4, 3), (6, Op { first: (6, 2), second: (2, 4) }));
    assert_eq!(input.dd2(0, 0), (6, Op { first: (6, 6), second: (6, 6) }));
    assert_eq!(input.grid(3), 0);
}

#[test]
fn fingerprints_are_the_same_for_every_instance() {
    let a = Input::input(3, vec![3, 1, 2, 0, 4, 5]).unwrap();
    let b = Input::input(3, vec![0, 1, 2, 3, 4, 5]).unwrap();
    for p in 0..6 {
        assert_eq!(a.zob(p), b.zob(p));
    }
    assert_ne!(a.zob(0), a.zob(1));
}

#[test]
fn bad_input_is_refused() {
    assert_eq!(Input::input(0, vec![]).err(), Some(InputError::BadRows));
    assert_eq!(Input::input(MAX_ROWS + 1, vec![]).err(), Some(InputError::BadRows));
    assert_eq!(Input::input(2, vec![0, 1]).err(), Some(InputError::BadLength));
    assert_eq!(Input::input(2, vec![0, 1, 3]).err(), Some(InputError::NotPermutation));
    assert_eq!(Input::input(2, vec![0, 1, 1]).err(), Some(InputError::NotPermutation));
    assert!(Input::input(2, vec![2, 0, 1]).is_ok());
}

#[test]
fn new_state_holds_the_grid() {
    let (input, state) = sample();
    for p in 0..6 {
        assert_eq!(state.ball(p), input.grid(p));
        assert_eq!(state.cell(state.ball(p)), p);
    }
    assert_eq!(state.ball(6), 0);
    assert_eq!(state.cell(0), 3);
}

#[test]
fn score_is_weighted_sum_plus_bonus() {
    let (input, state) = sample();
    // rows 0, 1, 1, 2, 2, 2 times balls 3, 1, 2, 0, 4, 5.
    assert_eq!(state.score(&input, 0), 0 * 3 + 1 * 1 + 1 * 2 + 2 * 0 + 2 * 4 + 2 * 5);
    assert_eq!(state.score(&input, 2), 21 + 2 * ENDED_BONUS);
    assert_eq!(ENDED_BONUS, 1200);
}

#[test]
fn hash_is_xor_of_cell_fingerprints() {
    let (input, state) = sample();
    assert_eq!(state.hash(&input, 0), 0);
    assert_eq!(state.hash(&input, 1), input.zob(3));
    assert_eq!(state.hash(&input, 3), input.zob(3) ^ input.zob(1) ^ input.zob(2));
}

#[test]
fn isok_looks_at_the_cells_above() {
    let (input, state) = sample();
    // Ball 0 lies in cell 3 below cell 1, which holds ball 1.
    assert!(!state.isok(&input, 0));
    // Ball 1 lies in cell 1 below cell 0, which holds ball 3.
    assert!(!state.isok(&input, 1));
    // Ball 3 lies in the top cell.
    assert!(state.isok(&input, 3));
    // Ball 5 lies in cell 5 below cell 2, which holds ball 2.
    assert!(state.isok(&input, 5));
    assert!(!state.isok(&input, 6));
}

#[test]
fn swap_exchanges_two_balls() {
    let (input, mut state) = sample();
    state.swap(&input, (3, 1));
    assert_eq!(state.ball(3), 1);
    assert_eq!(state.ball(1), 0);
    assert_eq!(state.cell(0), 1);
    assert_eq!(state.cell(1), 3);
    state.swap(&input, (6, 6));
    assert_eq!(state.ball(3), 1);
    assert_eq!(state.ball(6), 0);
}

#[test]
fn revert_undoes_apply() {
    let (input, mut state) = sample();
    let before: Vec<usize> = (0..7).map(|p| state.ball(p)).collect();
    let cells: Vec<usize> = (0..6).map(|k| state.cell(k)).collect();
    let score = state.score(&input, 0);
    let hash = state.hash(&input, 4);
    for op in [
        Op { first: (3, 1), second: (6, 6) },
        Op { first: (0, 1), second: (1, 4) },
        Op { first: (5, 2), second: (2, 0) },
    ] {
        state.apply(&input, &op);
        assert_ne!((0..7).map(|p| state.ball(p)).collect::<Vec<usize>>(), before);
        state.revert(&input, &op);
        assert_eq!((0..7).map(|p| state.ball(p)).collect::<Vec<usize>>(), before);
        assert_eq!((0..6).map(|k| state.cell(k)).collect::<Vec<usize>>(), cells);
        assert_eq!(state.score(&input, 0), score);
        assert_eq!(state.hash(&input, 4), hash);
    }
}

#[test]
fn same_contents_same_hash_by_two_ways() {
    let (input, mut a) = sample();
    let mut b = State::new(&input);
    // Cells 1, 3 and 4 are rotated: by two swaps, and by one operation of two swaps.
    a.swap(&input, (3, 1));
    a.swap(&input, (3, 4));
    b.apply(&input, &Op { first: (4, 1), second: (1, 3) });
    for p in 0..6 {
        assert_eq!(a.ball(p), b.ball(p));
    }
    for n in 0..=6 {
        assert_eq!(a.hash(&input, n), b.hash(&input, n));
        assert_eq!(a.score(&input, n), b.score(&input, n));
    }
}

#[test]
fn survey_counts_the_balls_at_rest() {
    let (input, state) = sample();
    let (p, score, hash) = state.survey(&input);
    assert_eq!(p, Progress { n: 0, prev_pos: NO_POS });
    assert_eq!(score, -21);
    assert_eq!(hash, 0);
    let solved = Input::input(3, vec![0, 1, 2, 3, 4, 5]).unwrap();
    let state = State::new(&solved);
    let (p, score, _) = state.survey(&solved);
    assert_eq!(p.n, 6);
    assert!(State::is_goal(&solved, &p));
    assert_eq!(score, -(1 + 2 + 6 + 8 + 10 + 6 * 1200));
}

#[test]
fn append_cands_offers_the_open_moves() {
    let (input, mut state) = sample();
    let (p, score, hash) = state.survey(&input);
    let mut out: Vec<Move<Op, Progress>> = Vec::new();
    state.append_cands(&input, &p, score, hash, &mut out);
    assert_eq!(out.len(), 3);
    // Up to cell 1: ball 0 then lies below ball 3 and is not at rest.
    assert_eq!(out[0].op, Op { first: (3, 1), second: (6, 6) });
    assert_eq!(out[0].turns, 1);
    assert_eq!(out[0].progress, Progress { n: 0, prev_pos: 3 });
    assert_eq!(out[0].score, -(1 * 0 + 2 * 1 + 1 * 2 + 8 + 10));
    assert_eq!(out[0].hash, 0);
    assert_eq!(out[0].key, input.zob(1));
    // To the right, to cell 4.
    assert_eq!(out[1].op, Op { first: (3, 4), second: (6, 6) });
    assert_eq!(out[1].score, -(1 + 2 + 2 * 4 + 2 * 0 + 10));
    assert_eq!(out[1].key, input.zob(4));
    // Ball 3 comes down from the top by two swaps, and ball 0 goes up to cell 1.
    assert_eq!(out[2].op, Op { first: (0, 1), second: (1, 3) });
    assert_eq!(out[2].turns, 2);
    assert_eq!(out[2].progress, Progress { n: 0, prev_pos: 3 });
    assert_eq!(out[2].score, -(0 * 1 + 1 * 0 + 1 * 2 + 2 * 3 + 2 * 4 + 2 * 5));
    assert_eq!(out[2].key, input.zob(1));
    // The state is back where it was.
    assert_eq!(state.cell(0), 3);
    // The move back is not offered.
    state.swap(&input, (3, 1));
    let mut out: Vec<Move<Op, Progress>> = Vec::new();
    let p = Progress { n: 0, prev_pos: 3 };
    let score = -state.score(&input, 0);
    state.append_cands(&input, &p, score, 0, &mut out);
    let ops: Vec<Op> = out.iter().map(|m| m.op).collect();
    assert_eq!(
        ops,
        vec![Op { first: (1, 0), second: (6, 6) }, Op { first: (1, 2), second: (6, 6) }]
    );
    // Reaching the top lets ball 0 come to rest.
    assert_eq!(out[0].progress, Progress { n: 1, prev_pos: NO_POS });
    assert_eq!(out[0].hash, input.zob(0));
    assert_eq!(out[0].score, -(0 + 1 * 3 + 2 + 2 + 8 + 10 + 1200));
}

#[test]
fn moves_of_two_swaps_bring_a_ball_down_two_rows() {
    let input = Input::input(3, vec![5, 1, 2, 3, 0, 4]).unwrap();
    let mut state = State::new(&input);
    let (p, score, hash) = state.survey(&input);
    let mut out: Vec<Move<Op, Progress>> = Vec::new();
    state.append_cands(&input, &p, score, hash, &mut out);
    let two: Vec<&Move<Op, Progress>> = out.iter().filter(|m| m.turns == 2).collect();
    assert_eq!(two.len(), 2);
    assert_eq!(two[0].op, Op { first: (0, 2), second: (2, 4) });
    assert_eq!(two[1].op, Op { first: (0, 1), second: (1, 4) });
    // After the first: cell 0 holds ball 2, cell 2 holds ball 0, cell 4 holds ball 5.
    assert_eq!(two[0].score, -(0 * 2 + 1 * 1 + 1 * 0 + 2 * 3 + 2 * 5 + 2 * 4));
    assert_eq!(two[0].progress.n, 0);
}
