use beam_search::beam::Cand;
use beam_search::driver::{jitter, select, Config};
use beam_search::nth::{select_nth_unstable_by_key, sort_unstable_by_key, Plain};

fn cand(score: i64, eval_score: i64, key: u64) -> Cand<u8, u8> {
    Cand { op: 0, parent: 0, eval_score, hash: 0, progress: 0, score, key, turns: 1 }
}

#[test]
fn select_nth_puts_the_nth_in_place() {
    let data: Vec<i64> = vec![9, -3, 7, 7, 0, 12, 5, -8, 3, 3, 14, 1, 6, 2, 11, -1, 4, 10, 8, 13];
    let mut sorted = data.clone();
    sorted.sort();
    for index in 0..data.len() {
        let mut v = data.clone();
        select_nth_unstable_by_key::<i64, Plain>(&mut v, index);
        assert_eq!(v[index], sorted[index]);
        assert!(v[..index].iter().all(|x| *x <= v[index]));
        assert!(v[index + 1..].iter().all(|x| *x >= v[index]));
        let mut w = v.clone();
        w.sort();
        assert_eq!(w, sorted);
    }
}

#[test]
fn select_nth_with_equal_keys() {
    let mut v: Vec<i64> = vec![5; 40];
    v[17] = 4;
    v[3] = 6;
    select_nth_unstable_by_key::<i64, Plain>(&mut v, 20);
    assert_eq!(v[20], 5);
    assert_eq!(v.iter().filter(|x| **x == 5).count(), 38);
}

#[test]
fn sort_orders_a_prefix() {
    let mut v: Vec<i64> = vec![9, -3, 7, 7, 0, 12, 5, -8, 3, 3, 14, 1, 6, 2, 11, -1, 4, 10, 8, 13];
    sort_unstable_by_key::<i64, Plain>(&mut v, 14);
    assert_eq!(v[..14], [-8, -3, 0, 1, 2, 3, 3, 5, 6, 7, 7, 9, 12, 14]);
    assert_eq!(v[14..], [11, -1, 4, 10, 8, 13]);
    sort_unstable_by_key::<i64, Plain>(&mut v, 20);
    assert_eq!(v, vec![-8, -3, -1, 0, 1, 2, 3, 3, 4, 5, 6, 7, 7, 8, 9, 10, 11, 12, 13, 14]);
}

#[test]
fn selector_keeps_the_best_without_duplicates() {
    let mut cands = vec![
        cand(50, 55, 1),
        cand(10, 19, 2),
        cand(30, 31, 3),
        cand(20, 12, 2),
        cand(40, 41, 4),
        cand(60, 0, 5),
    ];
    let keep = select(&mut cands, 2);
    // The four lowest scores come first, in the order of their ranking keys.
    let front: Vec<i64> = cands[..4].iter().map(|c| c.score).collect();
    assert_eq!(front, vec![20, 10, 30, 40]);
    let mut back: Vec<i64> = cands[4..].iter().map(|c| c.score).collect();
    back.sort();
    assert_eq!(back, vec![50, 60]);
    // The second has the key of the first; the beam is full after the third.
    assert_eq!(keep, vec![true, false, true, false, false, false]);
}

#[test]
fn selector_with_room_for_all() {
    let mut cands = vec![cand(3, 3, 7), cand(1, 1, 8), cand(2, 2, 7)];
    let keep = select(&mut cands, 5);
    let order: Vec<i64> = cands.iter().map(|c| c.eval_score).collect();
    assert_eq!(order, vec![1, 2, 3]);
    assert_eq!(keep, vec![true, true, false]);
    let mut none: Vec<Cand<u8, u8>> = Vec::new();
    assert_eq!(select(&mut none, 3), Vec::<bool>::new());
    let mut cands = vec![cand(3, 3, 7), cand(1, 1, 8)];
    assert_eq!(select(&mut cands, 0), vec![false, false]);
}

#[test]
fn raw_score_and_to_node() {
    let c: Cand<u8, u8> =
        Cand { op: 4, parent: 9, eval_score: 12, hash: 77, progress: 3, score: 10, key: 5, turns: 1 };
    assert_eq!(c.raw_score(), 10);
    let n = c.to_node();
    assert_eq!((n.op, n.parent, n.score, n.hash, n.progress), (4, 9, 10, 77, 3));
    assert_eq!((n.child, n.prev, n.next), (u32::MAX, u32::MAX, u32::MAX));
    assert_eq!((n.refs, n.valid), (0, 0));
}

#[test]
fn jitter_follows_the_line() {
    let cfg = Config { width: 300, jitter_from: 40, jitter_to: 20, jitter_span: 1900, poll_every: 32 };
    assert!(cfg.valid());
    assert_eq!(jitter(&cfg, 0), 40);
    assert_eq!(jitter(&cfg, 1900), 20);
    assert_eq!(jitter(&cfg, 950), 30);
    assert_eq!(jitter(&cfg, 47), 40);
    assert_eq!(jitter(&cfg, 48), 39);
    for turn in 0..3700usize {
        let want = (40.0 + (20.0 - 40.0) * (turn as f64 / 1900.0)).round() as u64;
        assert_eq!(jitter(&cfg, turn), want.max(1));
    }
    // Far out the line is below 1, and the magnitude stays at 1.
    assert_eq!(jitter(&cfg, 100_000), 1);
    let up = Config { width: 1, jitter_from: 1, jitter_to: 3, jitter_span: 4, poll_every: 1 };
    assert_eq!(jitter(&up, 1), 2);
    assert_eq!(jitter(&up, 3), 3);
    let bad = Config { width: 1, jitter_from: 1, jitter_to: 3, jitter_span: 0, poll_every: 1 };
    assert!(!bad.valid());
}
