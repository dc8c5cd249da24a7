use poker::card::{Card, Rank, Suit};
use poker::eval::eval7::Eval7Evaluator;
use poker::eval::fast::FastEvaluator;
use poker::eval::fisher::FisherEvaluator;
use poker::eval::lut::{needs_tables, LutData, LutEvaluator, LUT_THRESHOLD};
use poker::eval::lut_par::LutParEvaluator;
use poker::eval::naive::NaiveEvaluator;
use poker::eval::rng::{partial_shuffle, shuffle, Rng};
use poker::eval::score::Scorer;
use poker::eval::sim::{can_deal, cards_distinct, run_condition, Shuffle, SimTally};
use poker::eval::sort_free::SortFreeEvaluator;
use poker::eval::Condition;

#[allow(unused_imports)]
use poker::card::Rank::{Ace, Eight, Five, Four, Jack, King, Nine, Queen, Seven, Six, Ten, Three, Two};
#[allow(unused_imports)]
use poker::card::Suit::{Clubs, Diamonds, Hearts, Spades};

fn c(rank: Rank, suit: Suit) -> Card {
    Card { rank, suit }
}

fn all_runs(cond: &Condition, seed: u64) -> Vec<SimTally> {
    vec![
        NaiveEvaluator.run(cond, seed),
        FastEvaluator.run(cond, seed),
        SortFreeEvaluator.run(cond, seed),
        FisherEvaluator.run(cond, seed),
        Eval7Evaluator.run(cond, seed),
        LutEvaluator.run(cond, seed, None),
    ]
}

fn win(t: &SimTally, i: usize, k: usize) -> u32 {
    t.wins[i * t.players + k]
}

/// Shares of every deal add up to the number of deals, and every player gets one category
/// per deal.
fn check_balanced(t: &SimTally, deals: u32) {
    let n = t.players;
    for i in 0..n {
        let s: u64 = t.categories[i].iter().map(|&x| x as u64).sum();
        assert_eq!(s, deals as u64);
    }
    let mut shares = 0u64;
    for k in 0..n {
        let col: u64 = (0..n).map(|i| win(t, i, k) as u64).sum();
        assert_eq!(col % (k as u64 + 1), 0);
        shares += col / (k as u64 + 1);
    }
    if n > 0 {
        assert_eq!(shares, deals as u64);
    }
}

#[test]
fn generator_steps() {
    let mut r = Rng::from_seed(0);
    assert_eq!(r.0, 1);
    assert_eq!(r.next(), 0x4082_2041);
    assert_eq!(r.0, 0x4082_2041);
    let s = Rng::new_seeded(5, 0);
    assert_eq!(s.0, 5);
    let t = Rng::new_seeded(5, 1);
    assert_eq!(t.0, 5 ^ 0x9e37_79b9_7f4a_7c15);
}

fn sorted_ids(v: &[Card]) -> Vec<usize> {
    let mut ids: Vec<usize> = v.iter().map(|c| c.id_exec()).collect();
    ids.sort();
    ids
}

#[test]
fn shuffles_permute_the_deck_deterministically() {
    let deck: Vec<Card> = (0..52).map(Card::at).collect();
    let mut a = deck.clone();
    let mut ra = Rng::from_seed(42);
    shuffle(&mut ra, &mut a);
    let mut b = deck.clone();
    let mut rb = Rng::from_seed(42);
    shuffle(&mut rb, &mut b);
    assert_eq!(a, b);
    assert_ne!(a, deck);
    assert_eq!(sorted_ids(&a), (0..52).collect::<Vec<usize>>());

    let mut p = deck.clone();
    let mut rp = Rng::from_seed(7);
    partial_shuffle(&mut rp, &mut p, 5);
    assert_eq!(sorted_ids(&p), (0..52).collect::<Vec<usize>>());

    let mut l = deck.clone();
    let mut rl = Rng::from_seed(7);
    partial_shuffle(&mut rl, &mut l, 52);
    assert_eq!(sorted_ids(&l), (0..52).collect::<Vec<usize>>());
    assert_ne!(l, deck);
}

#[test]
fn known_cards_decide_every_deal() {
    let cond = Condition {
        players: vec![
            [Some(c(Ace, Spades)), Some(c(Ace, Hearts))],
            [Some(c(King, Spades)), Some(c(King, Hearts))],
        ],
        board: [
            Some(c(Two, Clubs)),
            Some(c(Seven, Diamonds)),
            Some(c(Nine, Hearts)),
            Some(c(Jack, Spades)),
            Some(c(Three, Diamonds)),
        ],
        iterations: 50,
    };
    for t in all_runs(&cond, 11) {
        assert_eq!(t.players, 2);
        assert_eq!(win(&t, 0, 0), 50);
        assert_eq!(win(&t, 0, 1), 0);
        assert_eq!(win(&t, 1, 0), 0);
        assert_eq!(win(&t, 1, 1), 0);
        assert_eq!(t.categories[0][1], 50);
        assert_eq!(t.categories[1][1], 50);
        check_balanced(&t, 50);
    }
}

#[test]
fn board_royal_flush_splits_every_deal() {
    let cond = Condition {
        players: vec![[None, None], [None, None], [None, None]],
        board: [
            Some(c(Ace, Hearts)),
            Some(c(King, Hearts)),
            Some(c(Queen, Hearts)),
            Some(c(Jack, Hearts)),
            Some(c(Ten, Hearts)),
        ],
        iterations: 40,
    };
    for t in all_runs(&cond, 3) {
        for i in 0..3 {
            assert_eq!(win(&t, i, 2), 40);
            assert_eq!(t.categories[i][9], 40);
        }
        check_balanced(&t, 40);
    }
}

#[test]
fn unknown_cards_keep_counts_balanced() {
    let cond = Condition {
        players: vec![
            [Some(c(Ace, Spades)), None],
            [None, None],
            [Some(c(Seven, Clubs)), Some(c(Two, Diamonds))],
        ],
        board: [Some(c(Ten, Hearts)), None, None, Some(c(Four, Spades)), None],
        iterations: 300,
    };
    for t in all_runs(&cond, 99) {
        assert_eq!(t.players, 3);
        check_balanced(&t, 300);
    }
    let again = FastEvaluator.run(&cond, 99);
    let first = FastEvaluator.run(&cond, 99);
    assert_eq!(again.wins, first.wins);
    assert_eq!(again.categories, first.categories);
}

#[test]
fn no_players_no_counts() {
    let cond = Condition { players: vec![], board: [None; 5], iterations: 10 };
    let t = FastEvaluator.run(&cond, 1);
    assert_eq!(t.players, 0);
    assert!(t.wins.is_empty());
    assert!(t.categories.is_empty());
}

#[test]
fn tables_agree_with_direct_scoring() {
    assert!(!needs_tables(LUT_THRESHOLD - 1));
    assert!(needs_tables(LUT_THRESHOLD));
    let lut = LutData::build();
    let cond = Condition {
        players: vec![[Some(c(Queen, Spades)), None], [None, None]],
        board: [None, Some(c(Five, Hearts)), None, None, None],
        iterations: LUT_THRESHOLD,
    };
    let with_tables = LutEvaluator.run(&cond, 5, Some(&lut));
    let direct = Eval7Evaluator.run(&cond, 5);
    assert_eq!(with_tables.wins, direct.wins);
    assert_eq!(with_tables.categories, direct.categories);
    check_balanced(&with_tables, LUT_THRESHOLD);
}

#[test]
fn worker_shares_cover_all_deals() {
    assert_eq!(LutParEvaluator::chunk_iterations(10, 3, 0), 4);
    assert_eq!(LutParEvaluator::chunk_iterations(10, 3, 1), 3);
    assert_eq!(LutParEvaluator::chunk_iterations(10, 3, 2), 3);
    assert_eq!(LutParEvaluator::chunk_iterations(7, 1, 0), 7);
    let total: u32 = (0..8).map(|t| LutParEvaluator::chunk_iterations(1001, 8, t)).sum();
    assert_eq!(total, 1001);
}

#[test]
fn worker_counts_merge_into_totals() {
    let cond = Condition {
        players: vec![[Some(c(Ace, Clubs)), None], [None, None]],
        board: [None; 5],
        iterations: 90,
    };
    let workers = 4;
    let parts: Vec<SimTally> = (0..workers)
        .map(|tid| LutParEvaluator.run_chunk(&cond, 1234, tid, workers, None))
        .collect();
    let merged = LutParEvaluator::merge(&parts, 2).unwrap();
    check_balanced(&merged, 90);
    for q in 0..4 {
        let s: u32 = parts.iter().map(|p| p.wins[q]).sum();
        assert_eq!(merged.wins[q], s);
    }
    for i in 0..2 {
        for k in 0..10 {
            let s: u32 = parts.iter().map(|p| p.categories[i][k]).sum();
            assert_eq!(merged.categories[i][k], s);
        }
    }
    assert!(LutParEvaluator::merge(&parts, 3).is_none());
    let big = SimTally { players: 1, wins: vec![u32::MAX], categories: vec![[0; 10]] };
    let one = SimTally { players: 1, wins: vec![1], categories: vec![[0; 10]] };
    assert!(LutParEvaluator::merge(&vec![big, one], 1).is_none());
}

#[test]
fn naive_and_sorting_evaluators_count_alike() {
    let cond = Condition {
        players: vec![
            [Some(c(King, Hearts)), None],
            [None, None],
            [Some(c(Two, Clubs)), Some(c(Two, Diamonds))],
        ],
        board: [None, None, Some(c(Ace, Spades)), None, None],
        iterations: 400,
    };
    for seed in [1u64, 77, 123456789] {
        let a = NaiveEvaluator.run(&cond, seed);
        let b = FastEvaluator.run(&cond, seed);
        let s = SortFreeEvaluator.run(&cond, seed);
        assert_eq!(a.wins, b.wins);
        assert_eq!(a.categories, b.categories);
        assert_eq!(s.wins, b.wins);
        assert_eq!(s.categories, b.categories);
    }
}

#[test]
fn worker_generators_differ() {
    let mut seen: Vec<u64> = Vec::new();
    for tid in 0..64 {
        let r = Rng::new_seeded(0x0123_4567_89ab_cdef, tid);
        assert!(!seen.contains(&r.0));
        seen.push(r.0);
    }
    // The one collision left: seeds 0 and 1 both start from state 1.
    let g = 0x9e37_79b9_7f4a_7c15u64;
    assert_eq!(Rng::new_seeded(g, 1).0, 1);
    assert_eq!(Rng::new_seeded(1, 0).0, 1);
}

#[test]
fn dealing_checks() {
    let ok = Condition {
        players: vec![[Some(c(Ace, Spades)), None], [None, None]],
        board: [None; 5],
        iterations: 1,
    };
    assert!(can_deal(&ok));
    assert!(cards_distinct(&ok));
    let twice = Condition {
        players: vec![[Some(c(Ace, Spades)), None], [None, Some(c(Ace, Spades))]],
        board: [None; 5],
        iterations: 1,
    };
    assert!(!cards_distinct(&twice));
    assert!(can_deal(&twice));
    let crowded = Condition { players: vec![[None, None]; 24], board: [None; 5], iterations: 1 };
    assert!(!can_deal(&crowded));
    let full = Condition { players: vec![[None, None]; 23], board: [None; 5], iterations: 1 };
    assert!(can_deal(&full));
}

#[test]
fn direct_and_best_of_five_count_alike() {
    // Four Nines on the board: the kicker beside them decides many deals.
    let cond = Condition {
        players: vec![[Some(c(Two, Spades)), None], [None, None], [Some(c(King, Hearts)), None]],
        board: [Some(c(Nine, Spades)), Some(c(Nine, Hearts)), Some(c(Nine, Diamonds)), Some(c(Nine, Clubs)), None],
        iterations: 300,
    };
    for kind in [Shuffle::Full, Shuffle::Lemire] {
        for seed in [3u64, 99, 2024] {
            let mut r1 = Rng::from_seed(seed);
            let mut r2 = Rng::from_seed(seed);
            let direct = run_condition(&Scorer::Direct, kind, &cond, &mut r1);
            let best = run_condition(&Scorer::Sorted, kind, &cond, &mut r2);
            assert_eq!(direct.wins, best.wins);
            assert_eq!(direct.categories, best.categories);
            check_balanced(&direct, 300);
        }
    }
}

#[test]
fn known_cards_count_alike_for_any_seed_and_split() {
    // Every card given: four Twos, the Ace kicker beats the King kicker in every deal.
    let cond = Condition {
        players: vec![[Some(c(Three, Hearts)), Some(c(Ace, Spades))], [Some(c(King, Spades)), Some(c(Queen, Spades))]],
        board: [Some(c(Two, Spades)), Some(c(Two, Hearts)), Some(c(Two, Diamonds)), Some(c(Two, Clubs)), Some(c(Three, Spades))],
        iterations: 40,
    };
    let reference = NaiveEvaluator.run(&cond, 1);
    assert_eq!(win(&reference, 0, 0), 40);
    assert_eq!(win(&reference, 1, 0), 0);
    assert_eq!(reference.categories[0][7], 40);
    assert_eq!(reference.categories[1][7], 40);
    for seed in [5u64, 77, 123456] {
        for t in all_runs(&cond, seed) {
            assert_eq!(t.wins, reference.wins);
            assert_eq!(t.categories, reference.categories);
        }
        for workers in [1usize, 3, 8] {
            let parts: Vec<SimTally> = (0..workers)
                .map(|tid| LutParEvaluator.run_chunk(&cond, seed, tid, workers, None))
                .collect();
            let merged = LutParEvaluator::merge(&parts, 2).unwrap();
            assert_eq!(merged.wins, reference.wins);
            assert_eq!(merged.categories, reference.categories);
        }
    }
}

#[test]
fn partial_shuffle_draws_with_lemire() {
    // From state 1 the first value is 1082269761; its Lemire reduction to two positions is 0,
    // so the first card stays where it is (a modulo draw would swap the two cards).
    let mut rng = Rng::from_seed(1);
    let mut v = vec![c(Ace, Spades), c(King, Spades)];
    partial_shuffle(&mut rng, &mut v, 1);
    assert_eq!(v, vec![c(Ace, Spades), c(King, Spades)]);
    assert_eq!(rng.0, 1082269761);
}
