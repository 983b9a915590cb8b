use beam_search::crane::{dx, dy, key, Crane, Input};
use beam_search::cut::{pick, rank};
use beam_search::terminal::{ten_to, Cand, Terminal, TURN};

fn input() -> Input {
    Input { n: 2, a: vec![vec![0, 1], vec![2, 3]] }
}

fn opened() -> Terminal {
    let mut t = Terminal::new(&input());
    t.prepare_cont();
    t.score = t.evaluate();
    t
}

#[test]
fn directions_are_right_down_left_up() {
    let steps: Vec<(isize, isize)> = (0..4).map(|d| (dx(d), dy(d))).collect();
    assert_eq!(steps, vec![(0, 1), (1, 0), (0, -1), (-1, 0)]);
}

#[test]
fn keys_tell_situations_apart() {
    let base = key(1, 2, false, 5, 3);
    assert_eq!(base, (1u64 << 48) + (2u64 << 40) + 6 * 8 + 3);
    assert_ne!(base, key(2, 1, false, 5, 3));
    assert_ne!(base, key(1, 2, true, 5, 3));
    assert_ne!(base, key(1, 2, false, -1, 3));
    assert_ne!(base, key(1, 2, false, 5, 4));
    assert_eq!(key(0, 0, false, -1, 0), 0);
}

#[test]
fn new_terminal_is_empty() {
    let t = Terminal::new(&input());
    assert_eq!((t.h, t.w, t.turn, t.score, t.hash), (2, 2, 0, 0, 0));
    assert_eq!(t.conts, vec![vec![0, 1], vec![2, 3]]);
    assert_eq!(t.out_cont_idx, vec![0, 2]);
    assert_eq!(t.incoming_cont_idx, vec![0, 0]);
    assert_eq!(t.grid_cont, vec![vec![vec![-1, -1]; 2]; 2]);
    assert_eq!(t.cont_suspended, vec![vec![vec![false, false]; 2]; 2]);
    assert_eq!(t.grid_crane, vec![vec![0, -1], vec![1, -1]]);
    assert_eq!(t.cranes.len(), 2);
    assert!(t.cranes[0].big && !t.cranes[1].big);
    assert_eq!((t.cranes[1].x, t.cranes[1].y, t.cranes[1].idx), (1, 0, 1));
    assert_eq!(t.cranes[0].pre_op, 6);
    assert_eq!(t.out_cont_turn.len(), TURN + 1);
    assert_eq!(t.incoming_cont_turn.len(), TURN + 1);
    // Every container waits: 200 and 3 for each row.
    assert_eq!(t.evaluate(), 406);
}

#[test]
fn powers_of_ten() {
    assert_eq!(ten_to(0), 1);
    assert_eq!(ten_to(3), 1000);
    assert_eq!(ten_to(15), 1_000_000_000_000_000);
}

#[test]
fn prepare_lets_containers_in_and_revert_takes_them_back() {
    let mut t = Terminal::new(&input());
    t.prepare_cont();
    assert_eq!(t.grid_cont[0][0], vec![0, -1]);
    assert_eq!(t.grid_cont[1][0], vec![2, -1]);
    assert_eq!(t.incoming_cont_idx, vec![1, 1]);
    assert_eq!(t.incoming_cont_turn[0], vec![0, 1]);
    // On the yard 1000 each, waiting 2 each.
    assert_eq!(t.evaluate(), 2004);
    // A second call finds the first column taken.
    t.prepare_cont();
    assert_eq!(t.incoming_cont_idx, vec![1, 1]);
    assert_eq!(t.incoming_cont_turn[0], vec![0, 1]);
    t.prepare_cont_revert();
    assert_eq!(t.grid_cont, vec![vec![vec![-1, -1]; 2]; 2]);
    assert_eq!(t.incoming_cont_idx, vec![0, 0]);
    assert!(t.incoming_cont_turn[0].is_empty());
    assert_eq!(t.evaluate(), 406);
}

#[test]
fn carry_out_lets_containers_leave_and_revert_puts_them_back() {
    let mut t = opened();
    t.grid_cont[0][1][0] = 0;
    t.grid_cont[0][0][0] = -1;
    t.grid_cont[1][1][0] = 3;
    t.cont_suspended[1][1][0] = true;
    t.carry_out_cont();
    assert_eq!(t.grid_cont[0][1], vec![-1, -1]);
    assert_eq!(t.out_cont_idx, vec![1, 2]);
    assert_eq!(t.out_cont_turn[0], vec![(0, 0)]);
    // The held container stays.
    assert_eq!(t.grid_cont[1][1], vec![3, -1]);
    t.carry_out_cont_revert();
    assert_eq!(t.grid_cont[0][1], vec![0, -1]);
    assert_eq!(t.out_cont_idx, vec![0, 2]);
    assert!(t.out_cont_turn[0].is_empty());
}

#[test]
fn a_large_crane_carries_a_container_to_the_exit() {
    let mut t = opened();
    let mut crane = Crane::new(&input(), 0, 0, 0, true);
    assert!(crane.suspend_ok(&t.grid_cont));
    assert!(!crane.lower_ok(&t.grid_cont, &t.out_cont_idx));
    assert_eq!(crane.suspend(&mut t.grid_cont, &mut t.cont_suspended), 'P');
    assert!(crane.suspended);
    assert_eq!(crane.pre_op, 4);
    assert_eq!(t.grid_cont[0][0], vec![-1, 0]);
    assert!(t.cont_suspended[0][0][1]);
    assert!(!crane.suspend_ok(&t.grid_cont));
    // Left and up leave the yard; down is taken by the other crane.
    assert!(!crane.shift_ok(2, &t.grid_crane, &t.grid_cont, &t.out_cont_idx));
    assert!(!crane.shift_ok(3, &t.grid_crane, &t.grid_cont, &t.out_cont_idx));
    assert!(!crane.shift_ok(1, &t.grid_crane, &t.grid_cont, &t.out_cont_idx));
    // Container 0 is due at row 0, so the crane may take it to the last column.
    assert!(crane.shift_ok(0, &t.grid_crane, &t.grid_cont, &t.out_cont_idx));
    assert_eq!(crane.shift(0, &mut t.grid_crane, &mut t.grid_cont, &mut t.cont_suspended), 'R');
    assert_eq!((crane.x, crane.y, crane.pre_op), (0, 1, 0));
    assert_eq!(t.grid_crane, vec![vec![-1, 0], vec![1, -1]]);
    assert_eq!(t.grid_cont[0][0], vec![-1, -1]);
    assert_eq!(t.grid_cont[0][1], vec![-1, 0]);
    assert!(t.cont_suspended[0][1][1] && !t.cont_suspended[0][0][1]);
    assert!(crane.lower_ok(&t.grid_cont, &t.out_cont_idx));
    assert_eq!(crane.lower(&mut t.grid_cont, &mut t.cont_suspended), 'Q');
    assert!(!crane.suspended);
    assert_eq!(t.grid_cont[0][1], vec![0, -1]);
    assert!(!t.cont_suspended[0][1][1]);
    assert_eq!(crane.stop(&t.grid_cont), '.');
    assert_eq!(crane.pre_op, 6);
    assert!(crane.explode_ok());
    assert_eq!(crane.explode(&t.grid_cont, &mut t.grid_crane), 'B');
    assert!(crane.exploded && !crane.explode_ok());
    assert_eq!(t.grid_crane, vec![vec![-1, -1], vec![1, -1]]);
    assert!(!crane.shift_ok(2, &t.grid_crane, &t.grid_cont, &t.out_cont_idx));
}

#[test]
fn a_container_that_is_not_due_stays_away_from_the_exit() {
    let mut t = opened();
    // Container 1 stands where container 0 stood.
    t.grid_cont[0][0][0] = 1;
    let mut crane = Crane::new(&input(), 0, 0, 0, false);
    crane.suspend(&mut t.grid_cont, &mut t.cont_suspended);
    assert!(!crane.shift_ok(0, &t.grid_crane, &t.grid_cont, &t.out_cont_idx));
}

#[test]
fn a_crane_does_not_go_back_to_where_it_has_been() {
    let mut t = opened();
    let mut crane = Crane::new(&input(), 0, 0, 0, true);
    assert!(crane.stop_ok(&t.grid_cont) == false);
    crane.shift(0, &mut t.grid_crane, &mut t.grid_cont, &mut t.cont_suspended);
    assert!(crane.stop_ok(&t.grid_cont));
    crane.stop(&t.grid_cont);
    assert!(!crane.stop_ok(&t.grid_cont));
}

#[test]
fn action_picks_the_operation() {
    let mut t = opened();
    let mut crane = Crane::new(&input(), 0, 0, 0, true);
    assert!(crane.action_ok(4, &t.grid_crane, &t.grid_cont, &t.out_cont_idx));
    assert_eq!(crane.action(4, &mut t.grid_crane, &mut t.grid_cont, &mut t.cont_suspended), 'P');
    assert_eq!(crane.action(0, &mut t.grid_crane, &mut t.grid_cont, &mut t.cont_suspended), 'R');
    assert_eq!(crane.action(5, &mut t.grid_crane, &mut t.grid_cont, &mut t.cont_suspended), 'Q');
    assert_eq!(crane.action(6, &mut t.grid_crane, &mut t.grid_cont, &mut t.cont_suspended), '.');
    assert!(crane.action_ok(7, &t.grid_crane, &t.grid_cont, &t.out_cont_idx));
    assert_eq!(crane.action(7, &mut t.grid_crane, &mut t.grid_cont, &mut t.cont_suspended), 'B');
    assert!(!crane.action_ok(7, &t.grid_crane, &t.grid_cont, &t.out_cont_idx));
}

#[test]
fn apply_moves_the_terminal_on() {
    let mut t = opened();
    t.incoming_cont_turn[0].clear();
    t.apply(4);
    assert_eq!(t.turn, 1);
    assert!(t.cranes[0].suspended);
    assert_eq!(t.grid_cont[0][0], vec![-1, 0]);
    // The cell is not free, so no container came in.
    assert_eq!(t.incoming_cont_idx, vec![1, 1]);
    assert_eq!(t.score, t.evaluate());
    assert_eq!(t.score, 2004);
    // The second crane moves right; its container stays.
    t.apply(0);
    assert_eq!(t.turn, 2);
    assert_eq!((t.cranes[1].x, t.cranes[1].y), (1, 1));
    assert_eq!(t.grid_crane, vec![vec![0, -1], vec![-1, 1]]);
    assert_eq!(t.grid_cont[1][0], vec![2, -1]);
    // The first crane brings container 0 to the exit and puts it down; it leaves.
    t.apply(0);
    t.apply(6);
    t.apply(5);
    assert_eq!(t.turn, 5);
    assert_eq!(t.out_cont_turn[4], vec![(0, 0)]);
    assert_eq!(t.out_cont_idx, vec![1, 2]);
    assert_eq!(t.grid_cont[0][1], vec![-1, -1]);
    // Container 1 came in when the first cell of row 0 was free.
    assert_eq!(t.incoming_cont_turn[2], vec![0]);
    assert_eq!(t.grid_cont[0][0], vec![1, -1]);
    assert_eq!(t.score, t.evaluate());
}

fn crane_facts(
    t: &Terminal,
    k: usize,
) -> (usize, usize, bool, bool, usize, i64, Vec<i64>, Vec<(usize, bool)>) {
    let c = &t.cranes[k];
    let mut seen: Vec<i64> = c.hash_set.iter().copied().collect();
    seen.sort();
    (c.x, c.y, c.suspended, c.exploded, c.pre_op, c.zobrist.get(), seen, c.trail.clone())
}

#[test]
fn revert_gives_back_the_state_before_apply() {
    let mut t = opened();
    t.incoming_cont_turn[0].clear();
    let print = t.cranes[0].zobrist.get();
    let seen = t.cranes[0].hash_set.clone();
    let grid = t.grid_cont.clone();
    let cranes = t.grid_crane.clone();
    let score = t.score;
    // Picking up, and taking it back.
    t.apply(4);
    assert_eq!(t.cranes[0].pre_op, 4);
    assert_eq!(t.cranes[0].trail, vec![(6, true)]);
    assert_ne!(t.cranes[0].zobrist.get(), print);
    t.revert(4);
    assert_eq!(t.turn, 0);
    assert_eq!(t.grid_cont, grid);
    assert_eq!(t.grid_crane, cranes);
    assert_eq!(t.cont_suspended, vec![vec![vec![false, false]; 2]; 2]);
    assert_eq!(t.score, score);
    assert!(!t.cranes[0].suspended);
    // The crane's last operation, fingerprint and memory are those from before.
    assert_eq!(t.cranes[0].pre_op, 6);
    assert_eq!(t.cranes[0].zobrist.get(), print);
    assert_eq!(t.cranes[0].hash_set, seen);
    assert!(t.cranes[0].trail.is_empty());
    assert!(t.out_cont_turn[0].is_empty() && t.incoming_cont_turn[0].is_empty());
    // A move, and taking it back.
    t.apply(0);
    assert_eq!((t.cranes[0].x, t.cranes[0].y, t.cranes[0].pre_op), (0, 1, 0));
    t.revert(0);
    assert_eq!(t.grid_crane, cranes);
    assert_eq!((t.cranes[0].x, t.cranes[0].y, t.cranes[0].pre_op), (0, 0, 6));
    assert_eq!(t.cranes[0].zobrist.get(), print);
    assert_eq!(t.cranes[0].hash_set, seen);
}

#[test]
fn reverts_in_turn_give_back_every_state_on_the_way() {
    let mut t = opened();
    t.incoming_cont_turn[0].clear();
    let ops = [4, 0, 0, 6, 5];
    let mut facts = Vec::new();
    let mut grids = Vec::new();
    for op in ops.iter() {
        facts.push((crane_facts(&t, 0), crane_facts(&t, 1), t.turn, t.score));
        grids.push((
            t.grid_cont.clone(),
            t.grid_crane.clone(),
            t.cont_suspended.clone(),
            t.out_cont_idx.clone(),
            t.incoming_cont_idx.clone(),
            t.out_cont_turn.clone(),
            t.incoming_cont_turn.clone(),
        ));
        t.apply(*op);
    }
    for op in ops.iter().rev() {
        t.revert(*op);
        let f = facts.pop().unwrap();
        let g = grids.pop().unwrap();
        assert_eq!((crane_facts(&t, 0), crane_facts(&t, 1), t.turn, t.score), f);
        assert_eq!(
            (
                t.grid_cont.clone(),
                t.grid_crane.clone(),
                t.cont_suspended.clone(),
                t.out_cont_idx.clone(),
                t.incoming_cont_idx.clone(),
                t.out_cont_turn.clone(),
                t.incoming_cont_turn.clone(),
            ),
            g
        );
    }
    assert_eq!(t.turn, 0);
}

#[test]
fn asking_leaves_the_crane_as_it_was() {
    let mut t = opened();
    let mut crane = Crane::new(&input(), 1, 1, 0, false);
    crane.suspend(&mut t.grid_cont, &mut t.cont_suspended);
    crane.lower(&mut t.grid_cont, &mut t.cont_suspended);
    let print = crane.zobrist.get();
    let seen = crane.hash_set.clone();
    // Picking up again would lead to a situation the crane has been in.
    assert!(!crane.suspend_ok(&t.grid_cont));
    assert_eq!(crane.zobrist.get(), print);
    assert_eq!(crane.hash_set, seen);
    assert_eq!((crane.x, crane.y, crane.suspended, crane.pre_op), (1, 0, false, 5));
    // So does every other question, whatever the answer.
    for op in 0..8 {
        crane.action_ok(op, &t.grid_crane, &t.grid_cont, &t.out_cont_idx);
        assert_eq!(crane.zobrist.get(), print);
        assert_eq!(crane.hash_set, seen);
        assert_eq!((crane.x, crane.y, crane.suspended, crane.pre_op), (1, 0, false, 5));
    }
}

#[test]
fn a_move_off_the_yard_is_refused_without_a_look_at_the_grids() {
    let mut crane = Crane::new(&input(), 0, 0, 0, true);
    let print = crane.zobrist.get();
    assert!(!crane.shift_ok(3, &Vec::new(), &Vec::new(), &Vec::new()));
    assert!(!crane.shift_ok(2, &Vec::new(), &Vec::new(), &Vec::new()));
    assert_eq!((crane.x, crane.y), (0, 0));
    assert_eq!(crane.zobrist.get(), print);
}

#[test]
fn append_cands_offers_what_the_crane_finds_open() {
    let mut t = opened();
    let mut cands: Vec<Cand> = Vec::new();
    t.append_cands(7, &mut cands);
    // Right and picking up are open; standing would undo the stop before.
    assert_eq!(
        cands,
        vec![
            Cand { op: 0, parent: 7, eval_score: 2004, hash: 0 },
            Cand { op: 4, parent: 7, eval_score: 2004, hash: 0 },
        ]
    );
    // With the container picked up, a move to the right brings it one cell closer.
    t.incoming_cont_turn[0].clear();
    t.apply(4);
    t.apply(6);
    let mut cands: Vec<Cand> = Vec::new();
    t.append_cands(3, &mut cands);
    let right: Vec<&Cand> = cands.iter().filter(|c| c.op == 0).collect();
    assert_eq!(right.len(), 1);
    assert_eq!(right[0].eval_score, t.score - 100);
    assert!(cands.iter().all(|c| c.op != 4));
}

fn cand(op: usize, parent: usize, eval_score: i64) -> Cand {
    Cand { op, parent, eval_score, hash: 0 }
}

#[test]
fn the_ranking_keeps_the_earlier_of_equals_first() {
    let mut cands = vec![cand(0, 0, 5), cand(1, 0, 3), cand(2, 1, 5), cand(3, 1, 3), cand(4, 2, 4)];
    rank(&mut cands);
    let ops: Vec<usize> = cands.iter().map(|c| c.op).collect();
    assert_eq!(ops, vec![1, 3, 4, 0, 2]);
    let mut none: Vec<Cand> = Vec::new();
    rank(&mut none);
    assert!(none.is_empty());
}

#[test]
fn the_cut_takes_the_best_and_tells_the_end() {
    let cands = vec![cand(0, 0, 5), cand(1, 0, 3), cand(2, 1, 5), cand(3, 1, 3), cand(4, 2, 4)];
    let (top, done) = pick(cands.clone(), 3);
    assert_eq!(top, vec![cand(1, 0, 3), cand(3, 1, 3), cand(4, 2, 4)]);
    assert!(!done);
    let (top, done) = pick(cands, 10);
    assert_eq!(top.len(), 5);
    assert!(!done);
    let (top, done) = pick(vec![cand(6, 4, 7), cand(0, 2, 0)], 1);
    assert_eq!(top, vec![cand(0, 2, 0)]);
    assert!(done);
}

#[test]
fn putting_down_is_looked_up_as_putting_down() {
    let mut t = opened();
    let mut crane = Crane::new(&input(), 1, 1, 0, false);
    crane.suspend(&mut t.grid_cont, &mut t.cont_suspended);
    // The crane has not put this container down here before.
    assert!(crane.lower_ok(&t.grid_cont, &t.out_cont_idx));
    crane.lower(&mut t.grid_cont, &mut t.cont_suspended);
    crane.suspend(&mut t.grid_cont, &mut t.cont_suspended);
    // Now it has: putting it down again would lead where it has been.
    assert!(!crane.lower_ok(&t.grid_cont, &t.out_cont_idx));
}
