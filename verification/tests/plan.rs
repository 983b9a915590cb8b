use beam_search::crane::Input;
use beam_search::plan::{copy, harvest, play, round, search};
use beam_search::terminal::{Cand, Terminal};

fn input() -> Input {
    Input { n: 2, a: vec![vec![0, 1], vec![2, 3]] }
}

fn wide() -> Input {
    Input { n: 3, a: vec![vec![0, 1, 2], vec![3, 4, 5], vec![6, 7, 8]] }
}

#[test]
fn the_opening_lets_the_first_containers_in_and_keeps_two_cranes() {
    let t = Terminal::opening(&wide());
    assert_eq!((t.h, t.turn, t.hash), (3, 0, 0));
    assert_eq!(t.score, t.evaluate());
    assert_eq!(t.incoming_cont_idx, vec![1, 1, 1]);
    assert_eq!(t.out_cont_idx, vec![0, 3, 6]);
    assert_eq!(t.grid_cont[0][0], vec![0, -1]);
    assert_eq!(t.grid_cont[1][0], vec![3, -1]);
    assert_eq!(t.grid_cont[2][0], vec![6, -1]);
    assert_eq!(t.grid_cont[0][1], vec![-1, -1]);
    // The third crane has left the yard; nothing is noted of the opening.
    assert_eq!(t.grid_crane, vec![vec![0, -1, -1], vec![1, -1, -1], vec![-1, -1, -1]]);
    assert!(!t.cranes[0].exploded && !t.cranes[1].exploded && t.cranes[2].exploded);
    assert_eq!((t.cranes[1].pre_op, t.cranes[2].pre_op), (6, 7));
    assert!(t.incoming_cont_turn.iter().all(|h| h.is_empty()));
    assert!(t.out_cont_turn.iter().all(|h| h.is_empty()));
}

#[test]
fn the_empty_sequence_gives_the_operations_open_at_the_opening() {
    let mut cands: Vec<Cand> = vec![Cand { op: 6, parent: 9, eval_score: 1, hash: 0 }];
    harvest(&input(), &Vec::new(), 3, &mut cands);
    // The large crane may move right or pick up; what was there stays in front.
    assert_eq!(
        cands,
        vec![
            Cand { op: 6, parent: 9, eval_score: 1, hash: 0 },
            Cand { op: 0, parent: 3, eval_score: 2004, hash: 0 },
            Cand { op: 4, parent: 3, eval_score: 2004, hash: 0 },
        ]
    );
}

#[test]
fn playing_a_sequence_leads_where_applying_its_operations_leads() {
    let path = vec![4, 0, 0];
    let t = play(&input(), &path);
    let mut u = Terminal::opening(&input());
    for op in path.iter() {
        u.apply(*op);
    }
    assert_eq!((t.turn, t.score), (3, u.score));
    assert_eq!(t.grid_cont, u.grid_cont);
    assert_eq!(t.grid_crane, u.grid_crane);
    assert_eq!((t.cranes[0].x, t.cranes[0].y, t.cranes[0].suspended), (0, 1, true));
    assert_eq!(copy(&path), path);
}

#[test]
fn a_round_extends_the_sequences_by_the_best_candidates() {
    let beam: Vec<Vec<usize>> = vec![Vec::new()];
    // Both candidates lead to the same score: the earlier comes first.
    assert_eq!(round(&input(), &beam, 10), Some(vec![vec![0], vec![4]]));
    assert_eq!(round(&input(), &beam, 1), Some(vec![vec![0]]));
    // In the second round the second crane is asked, for each sequence.
    let beam = vec![vec![0], vec![4]];
    let next = round(&input(), &beam, 100).unwrap();
    assert!(next.len() >= 2);
    for path in next.iter() {
        assert_eq!(path.len(), 2);
        assert!(path[0] == 0 || path[0] == 4);
        assert!(path[1] < 7);
        assert_eq!(play(&input(), path).turn, 2);
    }
    // The second crane may pick up after either.
    assert!(next.contains(&vec![0, 4]) && next.contains(&vec![4, 4]));
}

#[test]
fn the_search_gives_a_plan_that_can_be_played() {
    assert_eq!(search(&input(), 5, 0), Vec::<usize>::new());
    let plan = search(&input(), 5, 6);
    assert_eq!(plan.len(), 6);
    assert!(plan.iter().all(|op| *op < 7));
    let t = play(&input(), &plan);
    assert_eq!(t.turn, 6);
    assert_eq!(t.score, t.evaluate());
    // The first round ranks the move to the right before picking up.
    assert_eq!(search(&input(), 1, 1), vec![0]);
}

#[test]
fn a_yard_is_in_order_with_a_side_in_range_and_containers_of_the_yard() {
    assert!(input().valid());
    assert!(wide().valid());
    assert!(!Input { n: 0, a: vec![] }.valid());
    assert!(!Input { n: 9, a: vec![vec![0; 9]; 9] }.valid());
    assert!(!Input { n: 2, a: vec![vec![0, 1]] }.valid());
    assert!(!Input { n: 2, a: vec![vec![0, 1], vec![2]] }.valid());
    assert!(!Input { n: 2, a: vec![vec![0, 1], vec![2, 4]] }.valid());
    assert!(!Input { n: 2, a: vec![vec![0, -1], vec![2, 3]] }.valid());
}
