//! The table being set up: each player's hole cards, the board, the slot whose card is being
//! chosen, and what choosing, removing and resetting cards does to it.

use vstd::prelude::*;
use crate::card::{lemma_card_id, lemma_id_card, Card, Rank, Suit};
use crate::eval::{Condition, MAX_PLAYERS};
use crate::eval::deal::distinct_given;
use crate::eval::sim::condition_slots;
use rand::seq::IndexedRandom;

verus! {

/// A place for one card: a player's hole card, a flop card, the turn or the river.
#[derive(Clone, Copy, PartialEq, Eq, Structural, Hash, Debug)]
pub enum CardSlot {
    /// Player index, then hole-card index (0 or 1).
    Player(usize, usize),
    /// Flop card index (0 to 2).
    Flop(usize),
    Turn,
    River,
}

/// A player's two hole cards, each possibly not chosen yet.
#[derive(Clone, Copy, Debug)]
pub struct Player {
    pub cards: [Option<Card>; 2],
}

/// The five community cards, each possibly not chosen yet.
#[derive(Clone, Copy, Debug)]
pub struct Board {
    pub flop: [Option<Card>; 3],
    pub turn: Option<Card>,
    pub river: Option<Card>,
}

/// A choice made in the card picker.
#[derive(Clone, Copy, PartialEq, Eq, Structural, Debug)]
pub enum Pick {
    /// Put this card in the slot.
    Choose(Card),
    /// Put a card drawn at random among the free ones in the slot.
    Random,
    /// Empty the slot.
    Remove,
    /// Close the picker.
    Close,
}

/// The table: players, board, and the slot whose card is being chosen, if any.
pub struct Table {
    pub players: Vec<Player>,
    pub board: Board,
    pub picking: Option<CardSlot>,
}

impl Player {
    /// A player with no card chosen.
    pub fn empty() -> (p: Player)
        ensures
            p.cards@ == seq![None::<Card>, None::<Card>],
    {
        let p = Player { cards: [None, None] };
        assert(p.cards@ =~= seq![None::<Card>, None::<Card>]);
        p
    }
}

impl Board {
    /// A board with no card chosen.
    pub fn empty() -> (b: Board)
        ensures
            b.flop@ == seq![None::<Card>, None::<Card>, None::<Card>],
            b.turn is None,
            b.river is None,
    {
        let b = Board { flop: [None, None, None], turn: None, river: None };
        assert(b.flop@ =~= seq![None::<Card>, None::<Card>, None::<Card>]);
        b
    }
}

/// Every slot of a table of `n` players, in order: the players' hole cards, then flop, turn
/// and river.
pub open spec fn slot_list(n: int) -> Seq<CardSlot> {
    Seq::new((2 * n) as nat, |q: int| CardSlot::Player((q / 2) as usize, (q % 2) as usize)) + seq![
        CardSlot::Flop(0),
        CardSlot::Flop(1),
        CardSlot::Flop(2),
        CardSlot::Turn,
        CardSlot::River,
    ]
}

/// The slot after `slot` when filling a table of `n` players in order: a player's second card
/// after the first, the next player's first card after a second one (back to the first player
/// after the last), the flop in order, then turn and river; the river stays the river.
pub open spec fn next_spec(n: int, slot: CardSlot) -> CardSlot {
    match slot {
        CardSlot::Player(p, 0) => CardSlot::Player(p, 1),
        CardSlot::Player(p, 1) => CardSlot::Player(((p + 1) % n) as usize, 0),
        CardSlot::Flop(0) => CardSlot::Flop(1),
        CardSlot::Flop(1) => CardSlot::Flop(2),
        CardSlot::Flop(2) => CardSlot::Turn,
        CardSlot::Turn => CardSlot::River,
        _ => slot,
    }
}

/// The card at deck position `k` of the picker's order: ranks from Two to Ace, each in the
/// suits' order.
pub open spec fn picker_card(k: int) -> Card {
    Card { rank: Rank::from_index(k / 4), suit: Suit::from_index(k % 4) }
}

impl Table {
    /// A fresh table: two players, no card chosen, nothing being picked.
    pub fn new() -> (t: Table)
        ensures
            t.players@.len() == 2,
            t.is_blank(),
            t.picking is None,
    {
        let mut players: Vec<Player> = Vec::new();
        players.push(Player::empty());
        players.push(Player::empty());
        Table { players, board: Board::empty(), picking: None }
    }

    /// No card is chosen anywhere.
    pub open spec fn is_blank(&self) -> bool {
        &&& forall|p: int, k: int|
            0 <= p < self.players@.len() && 0 <= k < 2 ==> #[trigger] self.players@[p].cards@[k]
                is None
        &&& forall|i: int| 0 <= i < 3 ==> #[trigger] self.board.flop@[i] is None
        &&& self.board.turn is None
        &&& self.board.river is None
    }

    /// Whether the slot exists on this table.
    pub open spec fn valid_slot(&self, slot: CardSlot) -> bool {
        match slot {
            CardSlot::Player(p, c) => p < self.players@.len() && c < 2,
            CardSlot::Flop(i) => i < 3,
            _ => true,
        }
    }

    /// The card in a slot.
    pub open spec fn card_at(&self, slot: CardSlot) -> Option<Card> {
        match slot {
            CardSlot::Player(p, c) => self.players@[p as int].cards@[c as int],
            CardSlot::Flop(i) => self.board.flop@[i as int],
            CardSlot::Turn => self.board.turn,
            CardSlot::River => self.board.river,
        }
    }

    /// Card `c` is in some slot other than the one being picked.
    pub open spec fn holds(&self, c: Card) -> bool {
        exists|q: int|
            0 <= q < slot_list(self.players@.len() as int).len() && Some(
                #[trigger] slot_list(self.players@.len() as int)[q],
            ) != self.picking && self.card_at(slot_list(self.players@.len() as int)[q]) == Some(c)
    }

    /// The cards the picker offers: every card not held by another slot, ranks from Two to
    /// Ace, each in the suits' order.
    pub open spec fn free_cards(&self, k: int) -> Seq<Card>
        decreases k,
    {
        if k <= 0 {
            Seq::empty()
        } else if self.holds(picker_card(k - 1)) {
            self.free_cards(k - 1)
        } else {
            self.free_cards(k - 1).push(picker_card(k - 1))
        }
    }

    /// The card in a slot.
    pub fn get_card(&self, slot: CardSlot) -> (c: Option<Card>)
        requires
            self.valid_slot(slot),
        ensures
            c == self.card_at(slot),
    {
        match slot {
            CardSlot::Player(p, c) => self.players[p].cards[c],
            CardSlot::Flop(i) => self.board.flop[i],
            CardSlot::Turn => self.board.turn,
            CardSlot::River => self.board.river,
        }
    }

    /// Puts `card` (or nothing) in a slot; every other slot keeps its card.
    pub fn set_card(&mut self, slot: CardSlot, card: Option<Card>)
        requires
            old(self).valid_slot(slot),
        ensures
            final(self).players@.len() == old(self).players@.len(),
            final(self).picking == old(self).picking,
            final(self).card_at(slot) == card,
            forall|s: CardSlot|
                old(self).valid_slot(s) && s != slot ==> #[trigger] final(self).card_at(s) == old(
                    self,
                ).card_at(s),
    {
        match slot {
            CardSlot::Player(p, c) => {
                let mut pl = self.players[p];
                pl.cards[c] = card;
                self.players.set(p, pl);
            },
            CardSlot::Flop(i) => {
                self.board.flop[i] = card;
            },
            CardSlot::Turn => {
                self.board.turn = card;
            },
            CardSlot::River => {
                self.board.river = card;
            },
        }
    }

    /// Starts picking a slot, or stops when that slot was already being picked.
    pub fn toggle_picking(&mut self, slot: CardSlot)
        ensures
            final(self).players@ == old(self).players@,
            final(self).board == old(self).board,
            final(self).picking == (if old(self).picking == Some(slot) {
                None
            } else {
                Some(slot)
            }),
    {
        self.picking = if self.picking == Some(slot) {
            None
        } else {
            Some(slot)
        };
    }

    /// The slot after `slot` when filling the table in order (see `next_spec`); a slot outside
    /// that order is returned as it is. After a player's second card it needs a player to move
    /// on to.
    pub fn next_slot(&self, slot: CardSlot) -> (n: CardSlot)
        requires
            slot matches CardSlot::Player(p, 1) ==> self.players@.len() > 0 && p < usize::MAX,
        ensures
            n == next_spec(self.players@.len() as int, slot),
            self.valid_slot(slot) ==> self.valid_slot(n),
    {
        let n = self.players.len();
        match slot {
            CardSlot::Player(p, 0) => CardSlot::Player(p, 1),
            CardSlot::Player(p, 1) => CardSlot::Player((p + 1) % n, 0),
            CardSlot::Flop(0) => CardSlot::Flop(1),
            CardSlot::Flop(1) => CardSlot::Flop(2),
            CardSlot::Flop(2) => CardSlot::Turn,
            CardSlot::Turn => CardSlot::River,
            CardSlot::River => CardSlot::River,
            _ => slot,
        }
    }
}

/// Draws one of the cards uniformly at random with the `rand` crate's thread generator
/// (`IndexedRandom::choose` on `rand::rng()`): nothing for an empty list, else one of its
/// cards. Which card comes out is left open; the thread generator panics if the operating
/// system cannot seed it.
#[verifier::external_body]
fn choose_random(cards: &Vec<Card>) -> (c: Option<Card>)
    ensures
        cards@.len() == 0 ==> c is None,
        cards@.len() > 0 ==> c is Some && cards@.contains(c.unwrap()),
{
    cards.choose(&mut rand::rng()).copied()
}

/// The slot at position `q` of the slot list of `n` players.
fn slot_at(n: usize, q: usize) -> (s: CardSlot)
    requires
        q < 2 * n + 5,
        2 * n + 5 <= usize::MAX,
    ensures
        s == slot_list(n as int)[q as int],
{
    if q < 2 * n {
        CardSlot::Player(q / 2, q % 2)
    } else if q - 2 * n < 3 {
        CardSlot::Flop(q - 2 * n)
    } else if q - 2 * n == 3 {
        CardSlot::Turn
    } else {
        CardSlot::River
    }
}

impl Table {
    /// Every slot of the slot list exists on the table.
    pub proof fn lemma_slot_list_valid(&self, q: int)
        requires
            0 <= q < slot_list(self.players@.len() as int).len(),
        ensures
            self.valid_slot(slot_list(self.players@.len() as int)[q]),
    {
    }

    /// Marks, by deck position, the cards held by the slots other than the one being picked.
    pub fn used_cards(&self) -> (u: Vec<bool>)
        requires
            2 * self.players@.len() + 5 <= usize::MAX,
        ensures
            u@.len() == 52,
            forall|j: int| 0 <= j < 52 ==> #[trigger] u@[j] == self.holds(Card::from_id(j)),
    {
        let n = self.players.len();
        let ghost sl = slot_list(n as int);
        let mut u: Vec<bool> = Vec::new();
        let mut j: usize = 0;
        while j < 52
            invariant
                j <= 52,
                u@.len() == j,
                forall|i: int| 0 <= i < j ==> !u@[i],
            decreases 52 - j,
        {
            u.push(false);
            j = j + 1;
        }
        let total = 2 * n + 5;
        let mut q: usize = 0;
        while q < total
            invariant
                q <= total,
                total == 2 * n + 5,
                n == self.players@.len(),
                sl == slot_list(n as int),
                u@.len() == 52,
                forall|i: int|
                    0 <= i < 52 ==> #[trigger] u@[i] == exists|r: int|
                        0 <= r < q && Some(#[trigger] sl[r]) != self.picking && self.card_at(sl[r])
                            == Some(Card::from_id(i)),
            decreases total - q,
        {
            let slot = slot_at(n, q);
            proof {
                self.lemma_slot_list_valid(q as int);
            }
            let cur = self.get_card(slot);
            let ghost before = u@;
            if Some(slot) != self.picking {
                if let Some(c) = cur {
                    let id = c.id_exec();
                    u.set(id, true);
                }
            }
            proof {
                assert forall|i: int| 0 <= i < 52 implies #[trigger] u@[i] == exists|r: int|
                    0 <= r < q + 1 && Some(#[trigger] sl[r]) != self.picking && self.card_at(sl[r])
                        == Some(Card::from_id(i)) by {
                    lemma_id_card(i);
                    if exists|r: int|
                        0 <= r < q + 1 && Some(#[trigger] sl[r]) != self.picking && self.card_at(
                            sl[r],
                        ) == Some(Card::from_id(i)) {
                        let r = choose|r: int|
                            0 <= r < q + 1 && Some(#[trigger] sl[r]) != self.picking && self.card_at(
                                sl[r],
                            ) == Some(Card::from_id(i));
                        if r == q {
                            lemma_card_id(cur.unwrap());
                        }
                    }
                    if Some(slot) != self.picking && cur is Some {
                        lemma_card_id(cur.unwrap());
                        if i == cur.unwrap().id() {
                            assert(sl[q as int] == slot);
                        }
                    }
                }
            }
            q = q + 1;
        }
        proof {
            assert forall|i: int| 0 <= i < 52 implies #[trigger] u@[i] == self.holds(Card::from_id(i))
                by {
                if u@[i] {
                    let r = choose|r: int|
                        0 <= r < total && Some(#[trigger] sl[r]) != self.picking && self.card_at(sl[r])
                            == Some(Card::from_id(i));
                    assert(Some(slot_list(self.players@.len() as int)[r]) != self.picking);
                }
                if self.holds(Card::from_id(i)) {
                    let r = choose|r: int|
                        0 <= r < slot_list(self.players@.len() as int).len() && Some(
                            #[trigger] slot_list(self.players@.len() as int)[r],
                        ) != self.picking && self.card_at(slot_list(self.players@.len() as int)[r])
                            == Some(Card::from_id(i));
                    assert(Some(sl[r]) != self.picking);
                }
            }
        }
        u
    }
}

impl Table {
    /// The cards the picker offers: every card not held by another slot, ranks from Two to
    /// Ace, each in the suits' order.
    pub fn available_cards(&self) -> (v: Vec<Card>)
        requires
            2 * self.players@.len() + 5 <= usize::MAX,
        ensures
            v@ == self.free_cards(52),
    {
        let used = self.used_cards();
        let mut v: Vec<Card> = Vec::new();
        let mut k: usize = 0;
        while k < 52
            invariant
                k <= 52,
                used@.len() == 52,
                forall|j: int| 0 <= j < 52 ==> #[trigger] used@[j] == self.holds(Card::from_id(j)),
                v@ == self.free_cards(k as int),
            decreases 52 - k,
        {
            let card = Card { rank: Rank::at(k / 4), suit: Suit::at(k % 4) };
            assert(card == picker_card(k as int));
            let id = card.id_exec();
            proof {
                lemma_card_id(card);
            }
            if !used[id] {
                v.push(card);
            }
            k = k + 1;
        }
        v
    }

    /// Empties every slot and stops picking; the players stay.
    pub fn reset(&mut self)
        ensures
            final(self).players@.len() == old(self).players@.len(),
            final(self).is_blank(),
            final(self).picking is None,
    {
        let n = self.players.len();
        let mut players: Vec<Player> = Vec::new();
        let mut i: usize = 0;
        while i < n
            invariant
                i <= n,
                players@.len() == i,
                forall|p: int, k: int|
                    0 <= p < i && 0 <= k < 2 ==> #[trigger] players@[p].cards@[k] is None,
            decreases n - i,
        {
            players.push(Player::empty());
            i = i + 1;
        }
        self.players = players;
        self.board = Board::empty();
        self.picking = None;
    }

    /// Seats one more player, with no card, while fewer than `MAX_PLAYERS` sit, and stops
    /// picking; tells whether a player was seated.
    pub fn add_player(&mut self) -> (added: bool)
        ensures
            added == (old(self).players@.len() < MAX_PLAYERS),
            added ==> final(self).players@ == old(self).players@.push(final(self).players@.last())
                && final(self).players@.last().cards@ == seq![None::<Card>, None::<Card>]
                && final(self).board == old(self).board && final(self).picking is None,
            !added ==> final(self).players@ == old(self).players@ && final(self).board == old(
                self,
            ).board && final(self).picking == old(self).picking,
    {
        if self.players.len() < MAX_PLAYERS {
            self.players.push(Player::empty());
            self.picking = None;
            true
        } else {
            false
        }
    }

    /// The game state to simulate: each player's hole cards, the board as flop, turn and
    /// river, and the number of deals.
    pub fn condition(&self, iterations: u32) -> (c: Condition)
        ensures
            c.players@.len() == self.players@.len(),
            forall|p: int| 0 <= p < c.players@.len() ==> #[trigger] c.players@[p] == self.players@[p].cards,
            c.board@ == seq![
                self.board.flop@[0],
                self.board.flop@[1],
                self.board.flop@[2],
                self.board.turn,
                self.board.river,
            ],
            c.iterations == iterations,
            condition_slots(&c) == self.slot_cards(),
    {
        let mut players: Vec<[Option<Card>; 2]> = Vec::new();
        let mut i: usize = 0;
        while i < self.players.len()
            invariant
                i <= self.players@.len(),
                players@.len() == i,
                forall|p: int| 0 <= p < i ==> #[trigger] players@[p] == self.players@[p].cards,
            decreases self.players@.len() - i,
        {
            players.push(self.players[i].cards);
            i = i + 1;
        }
        let board = [
            self.board.flop[0],
            self.board.flop[1],
            self.board.flop[2],
            self.board.turn,
            self.board.river,
        ];
        assert(board@ =~= seq![
            self.board.flop@[0],
            self.board.flop@[1],
            self.board.flop@[2],
            self.board.turn,
            self.board.river,
        ]);
        let c = Condition { players, board, iterations };
        assert(condition_slots(&c) =~= self.slot_cards());
        c
    }

    /// Applies a picker choice to the slot being picked; with no slot being picked nothing
    /// changes. Choosing a card, or drawing one at
    /// random among the free cards when there is one, puts it in the slot, then moves on to the
    /// next slot when `shift` is held and stops picking otherwise; a draw with no free card
    /// changes nothing. Removing empties the slot and stops picking; closing stops picking.
    pub fn apply_pick(&mut self, pick: Pick, shift: bool)
        requires
            old(self).picking is Some ==> old(self).valid_slot(old(self).picking.unwrap()),
            2 * old(self).players@.len() + 5 <= usize::MAX,
        ensures
            final(self).players@.len() == old(self).players@.len(),
            old(self).picking is None ==> *final(self) == *old(self),
            old(self).picking is Some ==> ({
                let slot = old(self).picking.unwrap();
                let n = old(self).players@.len() as int;
                let after = if shift {
                    Some(next_spec(n, slot))
                } else {
                    None
                };
                match pick {
                    Pick::Choose(c) => final(self).puts(*old(self), slot, Some(c), after),
                    Pick::Random => if old(self).free_cards(52).len() > 0 {
                        exists|c: Card|
                            old(self).free_cards(52).contains(c) && final(self).puts(
                                *old(self),
                                slot,
                                Some(c),
                                after,
                            )
                    } else {
                        final(self).puts(*old(self), slot, old(self).card_at(slot), old(self).picking)
                    },
                    Pick::Remove => final(self).puts(*old(self), slot, None, None),
                    Pick::Close => final(self).puts(*old(self), slot, old(self).card_at(slot), None),
                }
            }),
    {
        let slot = match self.picking {
            Some(s) => s,
            None => {
                return;
            },
        };
        match pick {
            Pick::Choose(c) => {
                self.set_card(slot, Some(c));
                let after = if shift {
                    Some(self.next_slot(slot))
                } else {
                    None
                };
                let ghost mid = *self;
                self.picking = after;
                assert forall|s: CardSlot| old(self).valid_slot(s) && s != slot implies #[trigger] self.card_at(s)
                    == old(self).card_at(s) by {
                    assert(mid.card_at(s) == old(self).card_at(s));
                }
            },
            Pick::Random => {
                let available = self.available_cards();
                let drawn = choose_random(&available);
                if let Some(c) = drawn {
                    self.set_card(slot, Some(c));
                    let after = if shift {
                        Some(self.next_slot(slot))
                    } else {
                        None
                    };
                    let ghost mid = *self;
                    self.picking = after;
                    assert forall|s: CardSlot| old(self).valid_slot(s) && s != slot implies #[trigger] self.card_at(s)
                        == old(self).card_at(s) by {
                        assert(mid.card_at(s) == old(self).card_at(s));
                    }
                    assert(self.puts(*old(self), slot, Some(c), after));
                }
            },
            Pick::Remove => {
                self.set_card(slot, None);
                let ghost mid = *self;
                self.picking = None;
                assert forall|s: CardSlot| old(self).valid_slot(s) && s != slot implies #[trigger] self.card_at(s)
                    == old(self).card_at(s) by {
                    assert(mid.card_at(s) == old(self).card_at(s));
                }
            },
            Pick::Close => {
                self.picking = None;
            },
        }
    }

    /// This table is `before` with `card` in `slot`, every other slot as it was, the same
    /// players, and `picking` as the slot being picked.
    pub open spec fn puts(
        &self,
        before: Table,
        slot: CardSlot,
        card: Option<Card>,
        picking: Option<CardSlot>,
    ) -> bool {
        &&& self.players@.len() == before.players@.len()
        &&& self.card_at(slot) == card
        &&& forall|s: CardSlot|
            before.valid_slot(s) && s != slot ==> #[trigger] self.card_at(s) == before.card_at(s)
        &&& self.picking == picking
    }
}

impl Table {
    /// The cards of the slots, in slot-list order.
    pub open spec fn slot_cards(&self) -> Seq<Option<Card>> {
        let sl = slot_list(self.players@.len() as int);
        Seq::new(sl.len(), |q: int| self.card_at(sl[q]))
    }

    /// No card sits in two slots.
    pub open spec fn no_card_twice(&self) -> bool {
        distinct_given(self.slot_cards())
    }

    /// A card the picker offers is held by no other slot.
    pub proof fn lemma_free_not_held(&self, c: Card, k: int)
        requires
            self.free_cards(k).contains(c),
        ensures
            !self.holds(c),
        decreases k,
    {
        if k > 0 {
            let f = self.free_cards(k - 1);
            if self.holds(picker_card(k - 1)) {
                self.lemma_free_not_held(c, k - 1);
            } else if f.contains(c) {
                self.lemma_free_not_held(c, k - 1);
            } else {
                let i = choose|i: int| 0 <= i < f.len() + 1 && #[trigger] f.push(picker_card(k - 1))[i] == c;
                if i < f.len() {
                    assert(f[i] == c);
                }
            }
        }
    }
}

/// Different positions of the slot list hold different slots, and every slot of the table is
/// at some position.
pub proof fn lemma_slot_list(n: int)
    requires
        0 <= n,
        2 * n + 5 <= usize::MAX,
    ensures
        forall|a: int, b: int|
            0 <= a < slot_list(n).len() && 0 <= b < slot_list(n).len() && a != b ==> #[trigger] slot_list(n)[a]
                != #[trigger] slot_list(n)[b],
{
    let sl = slot_list(n);
    assert forall|a: int, b: int|
        0 <= a < sl.len() && 0 <= b < sl.len() && a != b implies #[trigger] sl[a] != #[trigger] sl[b] by {
        if a < 2 * n && b < 2 * n {
            assert(sl[a] == CardSlot::Player((a / 2) as usize, (a % 2) as usize));
            assert(sl[b] == CardSlot::Player((b / 2) as usize, (b % 2) as usize));
            assert(a / 2 != b / 2 || a % 2 != b % 2) by {
                if a / 2 == b / 2 && a % 2 == b % 2 {
                    assert(a == 2 * (a / 2) + a % 2);
                    assert(b == 2 * (b / 2) + b % 2);
                }
            }
        }
    }
}

/// Putting in the slot being picked a card no other slot holds, or emptying it, keeps every
/// card in at most one slot.
pub proof fn lemma_puts_keeps_distinct(
    before: Table,
    after: Table,
    slot: CardSlot,
    card: Option<Card>,
    picking: Option<CardSlot>,
)
    requires
        before.no_card_twice(),
        2 * before.players@.len() + 5 <= usize::MAX,
        before.valid_slot(slot),
        before.picking == Some(slot),
        after.puts(before, slot, card, picking),
        card matches Some(c) ==> !before.holds(c),
    ensures
        after.no_card_twice(),
{
    let n = before.players@.len() as int;
    let sl = slot_list(n);
    lemma_slot_list(n);
    let a0 = after.slot_cards();
    let b0 = before.slot_cards();
    assert forall|q: int| 0 <= q < sl.len() implies before.valid_slot(#[trigger] sl[q]) by {}
    assert forall|a: int, b: int|
        0 <= a < a0.len() && 0 <= b < a0.len() && a != b && #[trigger] a0[a] is Some implies a0[a]
            != #[trigger] a0[b] by {
        assert(a0[a] == after.card_at(sl[a]));
        assert(a0[b] == after.card_at(sl[b]));
        if sl[a] == slot {
            assert(sl[b] != slot);
            assert(after.card_at(sl[b]) == before.card_at(sl[b]));
            if a0[a] == a0[b] {
                assert(Some(sl[b]) != before.picking);
                assert(before.card_at(slot_list(before.players@.len() as int)[b]) == Some(card.unwrap()));
                assert(before.holds(card.unwrap()));
            }
        } else if sl[b] == slot {
            assert(after.card_at(sl[a]) == before.card_at(sl[a]));
            if a0[a] == a0[b] {
                assert(Some(sl[a]) != before.picking);
                assert(before.holds(card.unwrap()));
            }
        } else {
            assert(after.card_at(sl[a]) == before.card_at(sl[a]));
            assert(after.card_at(sl[b]) == before.card_at(sl[b]));
            assert(b0[a] == before.card_at(sl[a]));
            assert(b0[b] == before.card_at(sl[b]));
        }
    }
}

} // verus!
