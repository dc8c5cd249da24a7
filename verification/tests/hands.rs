use poker::card::{Card, Rank, Suit};
use poker::eval::{category, pack};
use poker::eval::eval7::eval7;
use poker::eval::fast;
use poker::eval::lut::{build_non_flush_table, eval7_inline, eval_lut, freq_key, LutData, NonFlushTable, EMPTY_KEY};
use poker::eval::naive::{best_hand, evaluate_five, HandCategory};
use poker::eval::sort_free;

fn c(rank: Rank, suit: Suit) -> Card {
    Card { rank, suit }
}

#[allow(unused_imports)]
use poker::card::Rank::{Ace, Eight, Five, Four, Jack, King, Nine, Queen, Seven, Six, Ten, Three, Two};
#[allow(unused_imports)]
use poker::card::Suit::{Clubs, Diamonds, Hearts, Spades};

#[test]
fn rank_labels() {
    assert_eq!(Two.label(), "2");
    assert_eq!(Nine.label(), "9");
    assert_eq!(Ten.label(), "T");
    assert_eq!(Jack.label(), "J");
    assert_eq!(Queen.label(), "Q");
    assert_eq!(King.label(), "K");
    assert_eq!(Ace.label(), "A");
}

#[test]
fn suit_symbols_and_colours() {
    assert_eq!(Spades.symbol(), "\u{2660}");
    assert_eq!(Hearts.symbol(), "\u{2665}");
    assert_eq!(Diamonds.symbol(), "\u{2666}");
    assert_eq!(Clubs.symbol(), "\u{2663}");
    assert_eq!(Hearts.color_rgb(), (220, 50, 50));
    assert_eq!(Diamonds.color_rgb(), (220, 50, 50));
    assert_eq!(Spades.color_rgb(), (20, 20, 20));
    assert_eq!(Clubs.color_rgb(), (20, 20, 20));
}

#[test]
fn card_labels_join_rank_and_suit() {
    assert_eq!(c(Ace, Spades).label(), "A\u{2660}");
    assert_eq!(c(Ten, Hearts).label(), "T\u{2665}");
    assert_eq!(c(Two, Clubs).label(), "2\u{2663}");
}

#[test]
fn deck_positions() {
    assert_eq!(Card::at(0), c(Two, Spades));
    assert_eq!(Card::at(12), c(Ace, Spades));
    assert_eq!(Card::at(13), c(Two, Hearts));
    assert_eq!(Card::at(51), c(Ace, Clubs));
    for id in 0..52 {
        assert_eq!(Card::at(id).id_exec(), id);
    }
}

#[test]
fn pack_places_nibbles() {
    assert_eq!(pack(9, 0, 0, 0, 0, 0), 0x900000);
    assert_eq!(pack(1, 8, 14, 13, 3, 0), 0x18ED30);
    assert_eq!(pack(0, 14, 12, 9, 6, 3), 0x0EC963);
    assert_eq!(category(0x18ED30), 1);
    assert_eq!(category(0x900000), 9);
}

fn five(cards: [Card; 5]) -> u32 {
    let a = fast::eval5(cards);
    let b = sort_free::eval5(cards);
    assert_eq!(a, b);
    a
}

#[test]
fn five_card_codes() {
    assert_eq!(five([c(Ace, Spades), c(King, Spades), c(Queen, Spades), c(Jack, Spades), c(Ten, Spades)]), 0x900000);
    assert_eq!(five([c(Nine, Hearts), c(Eight, Hearts), c(Seven, Hearts), c(Six, Hearts), c(Five, Hearts)]), 0x890000);
    assert_eq!(five([c(Ace, Diamonds), c(Five, Diamonds), c(Four, Diamonds), c(Three, Diamonds), c(Two, Diamonds)]), 0x850000);
    assert_eq!(five([c(King, Spades), c(King, Hearts), c(King, Diamonds), c(King, Clubs), c(Two, Spades)]), 0x7D2000);
    assert_eq!(five([c(Queen, Spades), c(Queen, Hearts), c(Queen, Diamonds), c(Three, Clubs), c(Three, Spades)]), 0x6C3000);
    assert_eq!(five([c(Ace, Clubs), c(Jack, Clubs), c(Nine, Clubs), c(Four, Clubs), c(Two, Clubs)]), 0x5EB942);
    assert_eq!(five([c(Six, Spades), c(Five, Hearts), c(Four, Diamonds), c(Three, Clubs), c(Two, Spades)]), 0x460000);
    assert_eq!(five([c(Ace, Spades), c(Two, Hearts), c(Three, Diamonds), c(Four, Clubs), c(Five, Spades)]), 0x450000);
    assert_eq!(five([c(Seven, Spades), c(Seven, Hearts), c(Seven, Diamonds), c(King, Clubs), c(Two, Spades)]), 0x37D200);
    assert_eq!(five([c(Jack, Spades), c(Jack, Hearts), c(Four, Diamonds), c(Four, Clubs), c(Ace, Spades)]), 0x2B4E00);
    assert_eq!(five([c(Eight, Spades), c(Eight, Hearts), c(Ace, Diamonds), c(King, Clubs), c(Three, Spades)]), 0x18ED30);
    assert_eq!(five([c(Ace, Spades), c(Queen, Hearts), c(Nine, Diamonds), c(Six, Clubs), c(Three, Spades)]), 0x0EC963);
}

#[test]
fn naive_values() {
    let hv = evaluate_five([c(Eight, Spades), c(Eight, Hearts), c(Ace, Diamonds), c(King, Clubs), c(Three, Spades)]);
    assert_eq!(hv.category, HandCategory::Pair);
    assert_eq!(hv.tiebreak, vec![8, 14, 13, 3]);
    assert_eq!(hv.code(), 0x18ED30);
    let royal = evaluate_five([c(Ace, Hearts), c(King, Hearts), c(Queen, Hearts), c(Jack, Hearts), c(Ten, Hearts)]);
    assert_eq!(royal.category, HandCategory::RoyalFlush);
    assert!(royal.tiebreak.is_empty());
    assert!(royal.beats(&hv));
    assert!(!hv.beats(&royal));
    let wheel = evaluate_five([c(Ace, Spades), c(Two, Hearts), c(Three, Diamonds), c(Four, Clubs), c(Five, Spades)]);
    assert_eq!(wheel.category, HandCategory::Straight);
    assert_eq!(wheel.tiebreak, vec![5]);
    let seven = [
        c(Ace, Spades), c(King, Spades), c(Queen, Spades), c(Jack, Spades),
        c(Ten, Spades), c(Two, Hearts), c(Three, Diamonds),
    ];
    let best = best_hand(&seven[..]);
    assert_eq!(best.category, HandCategory::RoyalFlush);
    let six = [c(Eight, Spades), c(Eight, Hearts), c(Eight, Diamonds), c(King, Clubs), c(King, Spades), c(Two, Hearts)];
    let fh = best_hand(&six[..]);
    assert_eq!(fh.category, HandCategory::FullHouse);
    assert_eq!(fh.tiebreak, vec![8, 13]);
    assert!(fh.same(&fh.clone()));
}

#[test]
fn seven_card_codes() {
    let royal = [
        c(Ace, Spades), c(King, Spades), c(Queen, Spades), c(Jack, Spades),
        c(Ten, Spades), c(Two, Hearts), c(Three, Diamonds),
    ];
    assert_eq!(fast::best7(&royal), 0x900000);
    assert_eq!(sort_free::best7(&royal), 0x900000);
    assert_eq!(eval7(&royal), 0x900000);
    let full = [
        c(Eight, Spades), c(Eight, Hearts), c(Eight, Diamonds), c(King, Clubs),
        c(King, Spades), c(King, Hearts), c(Two, Hearts),
    ];
    assert_eq!(fast::best7(&full), 0x6D8000);
    assert_eq!(eval7(&full), 0x6D8000);
    let flush7 = [
        c(Two, Clubs), c(Four, Clubs), c(Six, Clubs), c(Eight, Clubs),
        c(Ten, Clubs), c(Queen, Clubs), c(Ace, Diamonds),
    ];
    assert_eq!(fast::best7(&flush7), 0x5CA864);
    assert_eq!(eval7(&flush7), 0x5CA864);
}

#[test]
fn direct_evaluator_takes_the_highest_kicker_beside_three_pairs() {
    // Three pairs and a higher single: the best five cards keep the King as kicker.
    let seven = [
        c(Five, Spades), c(Five, Hearts), c(Four, Spades), c(Four, Hearts),
        c(Three, Spades), c(Three, Hearts), c(King, Diamonds),
    ];
    assert_eq!(fast::best7(&seven), 0x254D00);
    assert_eq!(eval7(&seven), 0x254D00);
    let kq = [
        c(King, Spades), c(King, Hearts), c(Queen, Spades), c(Queen, Hearts),
        c(Two, Clubs), c(Two, Diamonds), c(Ace, Clubs),
    ];
    assert_eq!(eval7(&kq), 0x2DCE00);
    assert_eq!(eval7_inline(&kq), 0x2DCE00);
    assert_eq!(eval_lut(&kq, &LutData::build()), 0x2DCE00);
}

#[test]
fn lookup_tables_match_direct_evaluator() {
    let lut = LutData::build();
    let hands = [
        [c(Ace, Spades), c(King, Spades), c(Queen, Spades), c(Jack, Spades), c(Ten, Spades), c(Two, Hearts), c(Three, Diamonds)],
        [c(Eight, Spades), c(Eight, Hearts), c(Eight, Diamonds), c(King, Clubs), c(King, Spades), c(King, Hearts), c(Two, Hearts)],
        [c(Two, Clubs), c(Four, Clubs), c(Six, Clubs), c(Eight, Clubs), c(Ten, Clubs), c(Queen, Clubs), c(Ace, Diamonds)],
        [c(Five, Spades), c(Five, Hearts), c(Four, Spades), c(Four, Hearts), c(Three, Spades), c(Three, Hearts), c(King, Diamonds)],
        [c(Ace, Spades), c(Two, Hearts), c(Three, Diamonds), c(Four, Clubs), c(Nine, Spades), c(Jack, Hearts), c(Five, Clubs)],
        [c(Ace, Spades), c(Queen, Hearts), c(Nine, Diamonds), c(Six, Clubs), c(Three, Spades), c(Two, Diamonds), c(Seven, Hearts)],
    ];
    for h in hands.iter() {
        assert_eq!(eval_lut(h, &lut), eval7(h));
    }
    for start in 0..46 {
        let mut h = [Card::at(0); 7];
        for k in 0..7 {
            h[k] = Card::at(start + k);
        }
        assert_eq!(eval_lut(&h, &lut), eval7(&h));
    }
}

#[test]
fn hand_values_compare_as_codes() {
    let hands = [
        [c(Ace, Spades), c(King, Spades), c(Queen, Spades), c(Jack, Spades), c(Ten, Spades)],
        [c(Eight, Spades), c(Eight, Hearts), c(Ace, Diamonds), c(King, Clubs), c(Three, Spades)],
        [c(Eight, Clubs), c(Eight, Diamonds), c(Ace, Hearts), c(King, Spades), c(Two, Spades)],
        [c(Ace, Spades), c(Two, Hearts), c(Three, Diamonds), c(Four, Clubs), c(Five, Spades)],
        [c(Jack, Spades), c(Jack, Hearts), c(Four, Diamonds), c(Four, Clubs), c(Ace, Spades)],
        [c(Ace, Clubs), c(Queen, Hearts), c(Nine, Diamonds), c(Six, Clubs), c(Three, Spades)],
    ];
    for a in hands.iter() {
        let va = evaluate_five(*a);
        assert_eq!(va.code(), fast::eval5(*a));
        for b in hands.iter() {
            let vb = evaluate_five(*b);
            assert_eq!(va.beats(&vb), va.code() > vb.code());
            assert_eq!(va.same(&vb), va.code() == vb.code());
        }
    }
}

#[test]
fn direct_evaluator_takes_the_highest_kicker_beside_quads() {
    // Four Nines, a pair of Twos and a King: the King is the kicker.
    let seven = [
        c(Nine, Spades), c(Nine, Hearts), c(Nine, Diamonds), c(Nine, Clubs),
        c(Two, Spades), c(Two, Hearts), c(King, Diamonds),
    ];
    assert_eq!(fast::best7(&seven), 0x79D000);
    assert_eq!(eval7(&seven), 0x79D000);
    let twos = [
        c(Two, Spades), c(Two, Hearts), c(Two, Diamonds), c(Two, Clubs),
        c(Three, Spades), c(Three, Hearts), c(Ace, Spades),
    ];
    assert_eq!(eval7(&twos), 0x72E000);
    assert_eq!(eval7_inline(&twos), 0x72E000);
    assert_eq!(eval_lut(&twos, &LutData::build()), 0x72E000);
}

#[test]
fn direct_evaluator_is_best_of_five() {
    let lut = LutData::build();
    let mut seed: u64 = 0x9E37_79B9_7F4A_7C15;
    for _ in 0..20000 {
        let mut ids: Vec<usize> = Vec::new();
        while ids.len() < 7 {
            seed = seed.wrapping_mul(6364136223846793005).wrapping_add(1442695040888963407);
            let id = ((seed >> 33) % 52) as usize;
            if !ids.contains(&id) {
                ids.push(id);
            }
        }
        let mut seven = [Card::at(0); 7];
        for k in 0..7 {
            seven[k] = Card::at(ids[k]);
        }
        assert_eq!(eval7(&seven), fast::best7(&seven));
        assert_eq!(eval_lut(&seven, &lut), fast::best7(&seven));
    }
}

#[test]
fn five_card_value_ignores_order() {
    let hands = [
        [c(Ace, Spades), c(King, Spades), c(Queen, Spades), c(Jack, Spades), c(Ten, Spades)],
        [c(Eight, Spades), c(Eight, Hearts), c(Ace, Diamonds), c(King, Clubs), c(Three, Spades)],
        [c(Ace, Spades), c(Two, Hearts), c(Three, Diamonds), c(Four, Clubs), c(Five, Spades)],
        [c(Jack, Spades), c(Jack, Hearts), c(Four, Diamonds), c(Four, Clubs), c(Ace, Spades)],
    ];
    for h in hands.iter() {
        let base = evaluate_five(*h);
        let mut p = *h;
        for step in 0..10 {
            p.swap(step % 5, (step * 3 + 1) % 5);
            let v = evaluate_five(p);
            assert!(v.same(&base));
            assert_eq!(v.code(), base.code());
        }
        assert_eq!(Rank::ALL.len(), 13);
        assert_eq!(Suit::ALL[3], Clubs);
    }
}

#[test]
fn count_table_map_holds_exactly_the_seven_card_tables() {
    let empty = NonFlushTable::new();
    assert!(empty.keys.iter().all(|&k| k == EMPTY_KEY));
    assert!(empty.vals.iter().all(|&v| v == 0));
    let t = build_non_flush_table();
    assert_eq!(t.keys.iter().filter(|&&k| k != EMPTY_KEY).count(), 49205);
    let mut f = [0u8; 15];
    f[14] = 4;
    f[13] = 2;
    f[2] = 1;
    assert_eq!(t.get(freq_key(&f)), 0x7ED000);
    // A key stored twice is found with its first value.
    let mut m = NonFlushTable::new();
    m.insert(12345, 7);
    m.insert(12345, 9);
    assert_eq!(m.get(12345), 7);
}

#[test]
fn lookups_after_inserts_return_first_values() {
    let mut m = NonFlushTable::new();
    let keys: [u64; 6] = [3, 131075, 3, 262147, 42, 131075];
    for (i, &k) in keys.iter().enumerate() {
        m.insert(k, i as u32 + 1);
    }
    assert_eq!(m.get(3), 1);
    assert_eq!(m.get(131075), 2);
    assert_eq!(m.get(262147), 4);
    assert_eq!(m.get(42), 5);
    assert_eq!(m.keys.iter().filter(|&&k| k != EMPTY_KEY).count(), 6);
}
