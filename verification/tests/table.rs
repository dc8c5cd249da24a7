use poker::card::{Card, Rank, Suit};
use poker::eval::sim::cards_distinct;
use poker::table::{CardSlot, Pick, Table};

#[allow(unused_imports)]
use poker::card::Rank::{Ace, Eight, Five, Four, Jack, King, Nine, Queen, Seven, Six, Ten, Three, Two};
#[allow(unused_imports)]
use poker::card::Suit::{Clubs, Diamonds, Hearts, Spades};

fn c(rank: Rank, suit: Suit) -> Card {
    Card { rank, suit }
}

#[test]
fn new_table_is_empty() {
    let t = Table::new();
    assert_eq!(t.players.len(), 2);
    assert!(t.picking.is_none());
    assert_eq!(t.get_card(CardSlot::Player(1, 1)), None);
    assert_eq!(t.get_card(CardSlot::River), None);
    assert_eq!(t.available_cards().len(), 52);
    assert!(t.used_cards().iter().all(|&u| !u));
}

#[test]
fn set_and_get_cards() {
    let mut t = Table::new();
    t.set_card(CardSlot::Player(0, 1), Some(c(Ace, Spades)));
    t.set_card(CardSlot::Flop(2), Some(c(Ten, Hearts)));
    t.set_card(CardSlot::Turn, Some(c(Two, Clubs)));
    assert_eq!(t.get_card(CardSlot::Player(0, 1)), Some(c(Ace, Spades)));
    assert_eq!(t.get_card(CardSlot::Flop(2)), Some(c(Ten, Hearts)));
    assert_eq!(t.get_card(CardSlot::Turn), Some(c(Two, Clubs)));
    assert_eq!(t.get_card(CardSlot::Player(0, 0)), None);
    let used = t.used_cards();
    assert!(used[c(Ace, Spades).id_exec()]);
    assert!(used[c(Ten, Hearts).id_exec()]);
    assert!(!used[c(Ace, Hearts).id_exec()]);
    let free = t.available_cards();
    assert_eq!(free.len(), 49);
    assert!(!free.contains(&c(Two, Clubs)));
    assert_eq!(free[0], c(Two, Spades));
    assert_eq!(free[1], c(Two, Hearts));
    assert_eq!(free[2], c(Two, Diamonds));
    assert_eq!(free[3], c(Three, Spades));
}

#[test]
fn the_slot_being_picked_does_not_count_as_used() {
    let mut t = Table::new();
    t.set_card(CardSlot::River, Some(c(King, Diamonds)));
    t.toggle_picking(CardSlot::River);
    assert!(!t.used_cards()[c(King, Diamonds).id_exec()]);
    assert_eq!(t.available_cards().len(), 52);
    t.toggle_picking(CardSlot::River);
    assert!(t.picking.is_none());
    assert!(t.used_cards()[c(King, Diamonds).id_exec()]);
}

#[test]
fn slots_follow_in_order() {
    let mut t = Table::new();
    assert!(t.add_player());
    assert_eq!(t.next_slot(CardSlot::Player(0, 0)), CardSlot::Player(0, 1));
    assert_eq!(t.next_slot(CardSlot::Player(0, 1)), CardSlot::Player(1, 0));
    assert_eq!(t.next_slot(CardSlot::Player(2, 1)), CardSlot::Player(0, 0));
    assert_eq!(t.next_slot(CardSlot::Flop(0)), CardSlot::Flop(1));
    assert_eq!(t.next_slot(CardSlot::Flop(2)), CardSlot::Turn);
    assert_eq!(t.next_slot(CardSlot::Turn), CardSlot::River);
    assert_eq!(t.next_slot(CardSlot::River), CardSlot::River);
}

#[test]
fn seats_at_most_nine_players() {
    let mut t = Table::new();
    t.toggle_picking(CardSlot::Turn);
    for _ in 0..7 {
        assert!(t.add_player());
    }
    assert!(t.picking.is_none());
    assert_eq!(t.players.len(), 9);
    assert!(!t.add_player());
    assert_eq!(t.players.len(), 9);
}

#[test]
fn picker_choices() {
    let mut t = Table::new();
    t.toggle_picking(CardSlot::Player(0, 0));
    t.apply_pick(Pick::Choose(c(Queen, Clubs)), true);
    assert_eq!(t.get_card(CardSlot::Player(0, 0)), Some(c(Queen, Clubs)));
    assert_eq!(t.picking, Some(CardSlot::Player(0, 1)));
    t.apply_pick(Pick::Choose(c(Jack, Clubs)), false);
    assert_eq!(t.get_card(CardSlot::Player(0, 1)), Some(c(Jack, Clubs)));
    assert!(t.picking.is_none());
    t.toggle_picking(CardSlot::Player(0, 1));
    t.apply_pick(Pick::Remove, true);
    assert_eq!(t.get_card(CardSlot::Player(0, 1)), None);
    assert!(t.picking.is_none());
    t.toggle_picking(CardSlot::Flop(1));
    t.apply_pick(Pick::Close, true);
    assert!(t.picking.is_none());
    assert_eq!(t.get_card(CardSlot::Flop(1)), None);
}

#[test]
fn random_pick_draws_a_free_card() {
    let mut t = Table::new();
    t.set_card(CardSlot::Flop(0), Some(c(Ace, Hearts)));
    for round in 0..20 {
        t.toggle_picking(CardSlot::Player(1, 0));
        let free = t.available_cards();
        t.apply_pick(Pick::Random, round % 2 == 0);
        let got = t.get_card(CardSlot::Player(1, 0)).unwrap();
        assert!(free.contains(&got));
        assert_ne!(got, c(Ace, Hearts));
        if round % 2 == 0 {
            assert_eq!(t.picking, Some(CardSlot::Player(1, 1)));
            t.toggle_picking(CardSlot::Player(1, 1));
        }
        assert!(t.picking.is_none());
    }
}

#[test]
fn reset_clears_cards_and_keeps_players() {
    let mut t = Table::new();
    assert!(t.add_player());
    t.set_card(CardSlot::Player(2, 0), Some(c(Nine, Spades)));
    t.set_card(CardSlot::River, Some(c(Nine, Hearts)));
    t.toggle_picking(CardSlot::Turn);
    t.reset();
    assert_eq!(t.players.len(), 3);
    assert!(t.picking.is_none());
    assert_eq!(t.get_card(CardSlot::Player(2, 0)), None);
    assert_eq!(t.get_card(CardSlot::River), None);
}

#[test]
fn condition_lists_players_then_board() {
    let mut t = Table::new();
    t.set_card(CardSlot::Player(1, 0), Some(c(Six, Clubs)));
    t.set_card(CardSlot::Flop(1), Some(c(Five, Diamonds)));
    t.set_card(CardSlot::River, Some(c(Four, Hearts)));
    let cond = t.condition(100_000);
    assert_eq!(cond.iterations, 100_000);
    assert_eq!(cond.players, vec![[None, None], [Some(c(Six, Clubs)), None]]);
    assert_eq!(cond.board, [None, Some(c(Five, Diamonds)), None, None, Some(c(Four, Hearts))]);
}

#[test]
fn picked_cards_never_repeat() {
    let mut t = Table::new();
    for _ in 0..7 {
        assert!(t.add_player());
    }
    let mut slot = CardSlot::Player(0, 0);
    t.toggle_picking(slot);
    for _ in 0..(2 * 9) {
        t.apply_pick(Pick::Random, true);
        slot = t.next_slot(slot);
        assert_eq!(t.picking, Some(slot));
    }
    t.toggle_picking(slot);
    t.toggle_picking(CardSlot::Flop(0));
    for _ in 0..5 {
        t.apply_pick(Pick::Random, true);
    }
    let cond = t.condition(10);
    assert!(cond.players.iter().all(|p| p[0].is_some() && p[1].is_some()));
    assert!(cond.board.iter().all(|b| b.is_some()));
    assert!(cards_distinct(&cond));
    assert_eq!(t.available_cards().len(), 52 - 23 + 1);
}

#[test]
fn slots_outside_the_order_stay_put() {
    let t = Table::new();
    assert_eq!(t.next_slot(CardSlot::Flop(7)), CardSlot::Flop(7));
    assert_eq!(t.next_slot(CardSlot::Player(5, 3)), CardSlot::Player(5, 3));
    assert_eq!(t.next_slot(CardSlot::Player(5, 0)), CardSlot::Player(5, 1));
}

#[test]
fn picking_nothing_changes_nothing() {
    let mut t = Table::new();
    t.set_card(CardSlot::Turn, Some(c(Ace, Hearts)));
    assert!(t.picking.is_none());
    for pick in [Pick::Choose(c(King, Clubs)), Pick::Random, Pick::Remove, Pick::Close] {
        t.apply_pick(pick, true);
        assert!(t.picking.is_none());
        assert_eq!(t.get_card(CardSlot::Turn), Some(c(Ace, Hearts)));
        assert_eq!(t.get_card(CardSlot::Flop(0)), None);
        assert_eq!(t.get_card(CardSlot::Player(0, 0)), None);
    }
}
