use beam_search::clock::{get_time, past, Clock};
use beam_search::hasher::NopHasher;
use beam_search::ops::{code, out_field, reverse_op, write_output, Operation};
use beam_search::rnd::{next, SEED};
use beam_search::zobrist::ZobristHashSet;

#[test]
fn next_is_xorshift_7_9() {
    let mut seed = SEED;
    assert_eq!(next(&mut seed), 11373782495151020392);
    assert_eq!(seed, 11373782495151020392);
    assert_eq!(next(&mut seed), 8505512047393832734);
    assert_eq!(next(&mut seed), 8278699350803616934);
    let mut one = 1u64;
    assert_eq!(next(&mut one), 129);
}

#[test]
fn reverse_op_pairs() {
    assert_eq!(reverse_op(0), Operation::Left);
    assert_eq!(reverse_op(1), Operation::Up);
    assert_eq!(reverse_op(2), Operation::Right);
    assert_eq!(reverse_op(3), Operation::Down);
    assert_eq!(reverse_op(4), Operation::Lower);
    assert_eq!(reverse_op(5), Operation::Suspend);
    assert_eq!(reverse_op(6), Operation::Stop);
    for op in 0..7 {
        assert_eq!(code(reverse_op(code(reverse_op(op)))), op);
    }
    assert_eq!(code(Operation::Explode), 7);
}

#[test]
fn out_field_is_the_complement_of_the_field() {
    assert!(!out_field(0, 0, 5, 5));
    assert!(!out_field(4, 4, 5, 5));
    assert!(out_field(5, 0, 5, 5));
    assert!(out_field(0, 5, 5, 5));
    assert!(out_field(-1, 0, 5, 5));
    assert!(out_field(0, -1, 5, 5));
    assert!(out_field(0, 0, 0, 0));
}

#[test]
fn write_output_deals_the_actions_out() {
    let actions: Vec<char> = "RDLUPQ.".chars().collect();
    let lines = write_output(&actions);
    assert_eq!(lines.len(), 5);
    assert_eq!(lines[0], vec!['R', 'L', 'P', '.']);
    assert_eq!(lines[1], vec!['D', 'U', 'Q']);
    assert!(lines[2].is_empty() && lines[3].is_empty() && lines[4].is_empty());
    assert_eq!(write_output(&Vec::new()), vec![Vec::<char>::new(); 5]);
}

#[test]
fn zobrist_flip_twice_restores() {
    let mut z = ZobristHashSet::new();
    assert_eq!(z.get(), 0);
    z.flip(17);
    let a = z.get();
    z.flip(23);
    let ab = z.get();
    z.flip(17);
    let b = z.get();
    z.flip(23);
    assert_eq!(z.get(), 0);
    assert_eq!(a ^ b, ab);
    // A key keeps the code it was given.
    z.flip(17);
    assert_eq!(z.get(), a);
    z.init();
    assert_eq!(z.get(), 0);
    z.flip(17);
    assert_eq!(z.get(), a);
}

#[test]
fn nop_hasher_hands_back_what_it_was_given() {
    let mut h = NopHasher::default();
    assert_eq!(h.finish(), 0);
    h.write_u64(0xdead_beef);
    assert_eq!(h.finish(), 0xdead_beef);
    h.write_u64(7);
    assert_eq!(h.finish(), 7);
}

#[test]
fn clock_measures_against_its_allowance() {
    assert!(past(5, 5));
    assert!(past(6, 5));
    assert!(!past(4, 5));
    assert!(past(0, 0));
    // A clock that allows nothing has expired whatever the time.
    let spent = Clock::new(0);
    assert!(spent.expired());
    assert!(spent.expired());
    let fresh = Clock::new(3_600_000);
    assert!(!fresh.expired());
    assert!(fresh.get_time() < 3_600_000);
    let start = std::time::Instant::now();
    let a = get_time(&start);
    let b = get_time(&start);
    assert!(a <= b);
}

#[test]
fn the_generator_gives_what_the_crate_gives() {
    for seed in [0u128, 1, 2, 0xcafe_f00d_d15e_a5e5, u128::MAX] {
        let mut mine = beam_search::mcg::Mcg::new(seed);
        let mut theirs = rand_pcg::Pcg64Mcg::new(seed);
        for _ in 0..2000 {
            assert_eq!(mine.next_u64(), rand::Rng::gen::<u64>(&mut theirs));
        }
    }
}

#[test]
fn the_fingerprint_table_is_drawn_from_seed_zero() {
    let input = beam_search::tables::Input::input(3, vec![3, 1, 2, 0, 4, 5]).unwrap();
    let mut theirs = rand_pcg::Pcg64Mcg::new(0);
    for p in 0..6 {
        assert_eq!(input.zob(p), rand::Rng::gen::<u64>(&mut theirs));
    }
    // The first two numbers of the generator from seed 0.
    assert_eq!(input.zob(0), 0xe160_e532_6180_0aab);
    assert_eq!(input.zob(1), 0x2a29_11d5_87fc_4ed5);
}
