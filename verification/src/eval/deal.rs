//! Dealing: the card slots of a game, the residual deck, and which card fills each slot.

use vstd::prelude::*;
use crate::card::{lemma_card_id, lemma_id_card, Card, Rank, Suit};
use super::model::{count_of, rank_values};
use super::rng::{full_shuffle, lemire, lemire_from, lemma_lemire_bound, shuffle_from, swap_at, xorshift};

verus! {

/// Every card slot of a game, players' two slots each in player order, then the board.
pub open spec fn slots(players: Seq<[Option<Card>; 2]>, board: Seq<Option<Card>>) -> Seq<
    Option<Card>,
> {
    Seq::new(2 * players.len(), |k: int| players[k / 2][k % 2]) + board
}

/// Number of unknown slots in `s`.
pub open spec fn none_count(s: Seq<Option<Card>>) -> nat
    decreases s.len(),
{
    if s.len() == 0 {
        0
    } else {
        none_count(s.drop_last()) + (if s.last() is None {
            1nat
        } else {
            0nat
        })
    }
}

/// Whether card `c` is given in some slot.
pub open spec fn is_known(s: Seq<Option<Card>>, c: Card) -> bool {
    s.contains(Some(c))
}

/// The cards of a fresh deck with position below `t` that no slot gives, in deck order.
pub open spec fn residual(s: Seq<Option<Card>>, t: int) -> Seq<Card>
    decreases t,
{
    if t <= 0 {
        Seq::empty()
    } else if is_known(s, Card::from_id(t - 1)) {
        residual(s, t - 1)
    } else {
        residual(s, t - 1).push(Card::from_id(t - 1))
    }
}

/// The residual deck: every card of a fresh deck that no slot gives, in deck order (suits
/// Spades, Hearts, Diamonds, Clubs, each from Two to Ace).
pub open spec fn residual_deck(s: Seq<Option<Card>>) -> Seq<Card> {
    residual(s, 52)
}

/// The card that fills slot `k` when the unknown slots are filled from `d` in order.
pub open spec fn dealt(s: Seq<Option<Card>>, d: Seq<Card>, k: int) -> Card {
    match s[k] {
        Some(c) => c,
        None => d[none_count(s.take(k)) as int],
    }
}

/// The seven cards of player `i`: the two hole cards, then the five board cards.
pub open spec fn seven_of(s: Seq<Option<Card>>, n: int, d: Seq<Card>, i: int) -> Seq<Card> {
    seq![
        dealt(s, d, 2 * i),
        dealt(s, d, 2 * i + 1),
        dealt(s, d, 2 * n),
        dealt(s, d, 2 * n + 1),
        dealt(s, d, 2 * n + 2),
        dealt(s, d, 2 * n + 3),
        dealt(s, d, 2 * n + 4),
    ]
}

/// Flattens the players' slots and the board into one slot list.
pub fn all_slots(players: &Vec<[Option<Card>; 2]>, board: &[Option<Card>; 5]) -> (s: Vec<
    Option<Card>,
>)
    requires
        2 * players@.len() + 5 <= usize::MAX,
    ensures
        s@ == slots(players@, board@),
{
    let mut s: Vec<Option<Card>> = Vec::new();
    let n = players.len();
    let mut i: usize = 0;
    while i < n
        invariant
            i <= n == players@.len(),
            s@ == slots(players@, board@).take(2 * i),
        decreases n - i,
    {
        let p = players[i];
        s.push(p[0]);
        s.push(p[1]);
        proof {
            let full = slots(players@, board@);
            assert(full[2 * i as int] == players@[i as int][0]);
            assert(full[2 * i + 1] == players@[i as int][1]);
            assert(s@ =~= full.take(2 * i + 2));
        }
        i = i + 1;
    }
    let mut k: usize = 0;
    while k < 5
        invariant
            k <= 5,
            n == players@.len(),
            s@ == slots(players@, board@).take(2 * n + k),
        decreases 5 - k,
    {
        s.push(board[k]);
        proof {
            assert(s@ =~= slots(players@, board@).take(2 * n + k + 1));
        }
        k = k + 1;
    }
    assert(s@ =~= slots(players@, board@));
    s
}

/// Number of unknown slots.
pub fn count_unknown(s: &Vec<Option<Card>>) -> (c: usize)
    ensures
        c == none_count(s@),
{
    let mut c: usize = 0;
    let mut k: usize = 0;
    while k < s.len()
        invariant
            k <= s@.len(),
            c == none_count(s@.take(k as int)),
            c <= k,
        decreases s@.len() - k,
    {
        proof {
            assert(s@.take(k + 1).drop_last() == s@.take(k as int));
        }
        if s[k].is_none() {
            c = c + 1;
        }
        k = k + 1;
    }
    assert(s@.take(s@.len() as int) == s@);
    c
}

/// The residual deck of a game.
pub fn build_deck(s: &Vec<Option<Card>>) -> (d: Vec<Card>)
    ensures
        d@ == residual_deck(s@),
{
    let mut known: Vec<bool> = Vec::new();
    let mut t: usize = 0;
    while t < 52
        invariant
            t <= 52,
            known@.len() == t,
            forall|j: int| 0 <= j < t ==> !known@[j],
        decreases 52 - t,
    {
        known.push(false);
        t = t + 1;
    }
    let mut k: usize = 0;
    while k < s.len()
        invariant
            k <= s@.len(),
            known@.len() == 52,
            forall|j: int|
                0 <= j < 52 ==> known@[j] == s@.take(k as int).contains(Some(Card::from_id(j))),
        decreases s@.len() - k,
    {
        let ghost before = known@;
        proof {
            assert(s@.take(k + 1) =~= s@.take(k as int).push(s@[k as int]));
        }
        match s[k] {
            Some(c) => {
                let id = c.id_exec();
                known.set(id, true);
                proof {
                    lemma_card_id(c);
                    assert forall|j: int| 0 <= j < 52 implies known@[j] == s@.take(k + 1).contains(
                        Some(Card::from_id(j)),
                    ) by {
                        lemma_id_card(j);
                        if j == id {
                            assert(s@.take(k + 1)[k as int] == Some(Card::from_id(j)));
                        } else {
                            if s@.take(k + 1).contains(Some(Card::from_id(j))) {
                                let q = choose|q: int|
                                    0 <= q < k + 1 && #[trigger] s@.take(k + 1)[q] == Some(Card::from_id(j));
                                if q == k {
                                    assert(Card::from_id(j) == c);
                                    assert(Card::from_id(j).id() == j);
                                }
                                assert(s@.take(k as int)[q] == Some(Card::from_id(j)));
                            }
                        }
                    }
                }
            },
            None => {
                proof {
                    assert forall|j: int| 0 <= j < 52 implies known@[j] == s@.take(k + 1).contains(
                        Some(Card::from_id(j)),
                    ) by {
                        if s@.take(k + 1).contains(Some(Card::from_id(j))) {
                            let q = choose|q: int|
                                0 <= q < k + 1 && #[trigger] s@.take(k + 1)[q] == Some(Card::from_id(j));
                            assert(s@.take(k as int)[q] == Some(Card::from_id(j)));
                        }
                    }
                }
            },
        }
        k = k + 1;
    }
    assert(s@.take(s@.len() as int) == s@);
    let mut d: Vec<Card> = Vec::new();
    let mut id: usize = 0;
    while id < 52
        invariant
            id <= 52,
            known@.len() == 52,
            forall|j: int| 0 <= j < 52 ==> known@[j] == s@.contains(Some(Card::from_id(j))),
            d@ == residual(s@, id as int),
        decreases 52 - id,
    {
        if !known[id] {
            d.push(Card::at(id));
        }
        id = id + 1;
    }
    d
}


/// No card is given in two slots.
pub open spec fn distinct_given(s: Seq<Option<Card>>) -> bool {
    forall|a: int, b: int|
        0 <= a < s.len() && 0 <= b < s.len() && a != b && #[trigger] s[a] is Some ==> s[a]
            != #[trigger] s[b]
}

/// A deck to deal from: at most 52 cards, none twice, none of them given in a slot.
pub open spec fn fresh_deck(s: Seq<Option<Card>>, d: Seq<Card>) -> bool {
    &&& d.len() <= 52
    &&& d.no_duplicates()
    &&& forall|m: int| 0 <= m < d.len() ==> !is_known(s, #[trigger] d[m])
}

/// The residual cards below position `t` are distinct, unknown, and of position below `t`.
pub proof fn lemma_residual(s: Seq<Option<Card>>, t: int)
    requires
        0 <= t <= 52,
    ensures
        residual(s, t).len() <= t,
        residual(s, t).no_duplicates(),
        forall|m: int|
            0 <= m < residual(s, t).len() ==> !is_known(s, #[trigger] residual(s, t)[m])
                && residual(s, t)[m].id() < t,
    decreases t,
{
    if t > 0 {
        lemma_residual(s, t - 1);
        lemma_id_card(t - 1);
        let r = residual(s, t - 1);
        if !is_known(s, Card::from_id(t - 1)) {
            let r2 = r.push(Card::from_id(t - 1));
            assert forall|a: int, b: int| 0 <= a < r2.len() && 0 <= b < r2.len() && a != b implies r2[a]
                != r2[b] by {
                if a == r.len() {
                    assert(r2[b].id() < t - 1);
                } else if b == r.len() {
                    assert(r2[a].id() < t - 1);
                } else {
                    assert(r2[a] == r[a] && r2[b] == r[b]);
                }
            }
            assert forall|m: int| 0 <= m < r2.len() implies !is_known(s, #[trigger] r2[m])
                && r2[m].id() < t by {
                if m < r.len() {
                    assert(r2[m] == r[m]);
                }
            }
        }
    }
}

/// The residual deck is a deck to deal from.
pub proof fn lemma_residual_deck(s: Seq<Option<Card>>)
    ensures
        fresh_deck(s, residual_deck(s)),
{
    lemma_residual(s, 52);
}

/// Swapping two positions keeps a deck to deal from.
pub proof fn lemma_swap_fresh(s: Seq<Option<Card>>, d: Seq<Card>, i: int, j: int)
    requires
        fresh_deck(s, d),
        0 <= i < d.len(),
        0 <= j < d.len(),
    ensures
        fresh_deck(s, swap_at(d, i, j)),
        swap_at(d, i, j).len() == d.len(),
{
    let e = swap_at(d, i, j);
    assert forall|m: int| 0 <= m < e.len() implies #[trigger] e[m] == d[if m == j {
        i
    } else if m == i {
        j
    } else {
        m
    }] by {}
    assert forall|a: int, b: int| 0 <= a < e.len() && 0 <= b < e.len() && a != b implies e[a]
        != e[b] by {
        let pa = if a == j { i } else if a == i { j } else { a };
        let pb = if b == j { i } else if b == i { j } else { b };
        assert(e[a] == d[pa]);
        assert(e[b] == d[pb]);
    }
    assert forall|m: int| 0 <= m < e.len() implies !is_known(s, #[trigger] e[m]) by {
        let pm = if m == j { i } else if m == i { j } else { m };
        assert(e[m] == d[pm]);
    }
}

/// The full shuffle keeps a deck to deal from.
pub proof fn lemma_shuffle_from_fresh(s: Seq<Option<Card>>, d: Seq<Card>, x: u64, i: int)
    requires
        fresh_deck(s, d),
        i < d.len(),
    ensures
        fresh_deck(s, shuffle_from(d, x, i).0),
        shuffle_from(d, x, i).0.len() == d.len(),
    decreases i,
{
    if i >= 1 {
        let y = xorshift(x);
        let j = (y as usize) as int % (i + 1);
        lemma_swap_fresh(s, d, i, j);
        lemma_shuffle_from_fresh(s, swap_at(d, i, j), y, i - 1);
    }
}

/// The partial shuffle with Lemire's reduction keeps a deck to deal from.
pub proof fn lemma_lemire_from_fresh(s: Seq<Option<Card>>, d: Seq<Card>, x: u64, i: int, k: int)
    requires
        fresh_deck(s, d),
        0 <= i,
        k <= d.len(),
    ensures
        fresh_deck(s, lemire_from(d, x, i, k).0),
        lemire_from(d, x, i, k).0.len() == d.len(),
    decreases k - i,
{
    if i < k {
        let y = xorshift(x);
        lemma_lemire_bound(y, (d.len() - i) as u64);
        let j = i + lemire(y, (d.len() - i) as u64);
        lemma_swap_fresh(s, d, i, j);
        lemma_lemire_from_fresh(s, swap_at(d, i, j), y, i + 1, k);
    }
}

/// Counting unknown slots one slot further.
pub proof fn lemma_none_count_step(s: Seq<Option<Card>>, k: int)
    requires
        0 <= k < s.len(),
    ensures
        none_count(s.take(k + 1)) == none_count(s.take(k)) + (if s[k] is None {
            1int
        } else {
            0int
        }),
{
    assert(s.take(k + 1).drop_last() =~= s.take(k));
}

/// Unknown slots of a prefix are at most those of a longer prefix.
pub proof fn lemma_none_count_mono(s: Seq<Option<Card>>, a: int, b: int)
    requires
        0 <= a <= b <= s.len(),
    ensures
        none_count(s.take(a)) <= none_count(s.take(b)),
        b == s.len() ==> none_count(s.take(b)) == none_count(s),
    decreases b - a,
{
    assert(s.take(s.len() as int) =~= s);
    if a < b {
        lemma_none_count_step(s, b - 1);
        lemma_none_count_mono(s, a, b - 1);
    }
}

/// The unknown slot at `k` takes a deck position below the number of unknown slots.
pub proof fn lemma_dealt_index(s: Seq<Option<Card>>, k: int)
    requires
        0 <= k < s.len(),
        s[k] is None,
    ensures
        none_count(s.take(k)) < none_count(s),
{
    lemma_none_count_step(s, k);
    lemma_none_count_mono(s, k + 1, s.len() as int);
}

/// Two distinct slots are filled with distinct cards.
pub proof fn lemma_dealt_distinct(s: Seq<Option<Card>>, d: Seq<Card>, a: int, b: int)
    requires
        distinct_given(s),
        fresh_deck(s, d),
        none_count(s) <= d.len(),
        0 <= a < b < s.len(),
    ensures
        dealt(s, d, a) != dealt(s, d, b),
{
    match s[a] {
        Some(ca) => {
            match s[b] {
                Some(cb) => {},
                None => {
                    lemma_dealt_index(s, b);
                    let m = none_count(s.take(b)) as int;
                    assert(s[a] == Some(ca));
                    assert(is_known(s, ca));
                    assert(!is_known(s, d[m]));
                },
            }
        },
        None => {
            lemma_dealt_index(s, a);
            match s[b] {
                Some(cb) => {
                    let m = none_count(s.take(a)) as int;
                    assert(s[b] == Some(cb));
                    assert(is_known(s, cb));
                    assert(!is_known(s, d[m]));
                },
                None => {
                    lemma_dealt_index(s, b);
                    lemma_none_count_step(s, a);
                    lemma_none_count_mono(s, a + 1, b);
                },
            }
        },
    }
}

/// The suits of the cards of rank value `v`.
pub open spec fn suits_with(c: Seq<Card>, v: int) -> Set<Suit>
    decreases c.len(),
{
    if c.len() == 0 {
        Set::empty()
    } else if c.last().rank.value() == v {
        suits_with(c.drop_last(), v).insert(c.last().suit)
    } else {
        suits_with(c.drop_last(), v)
    }
}

/// Without a card twice, the cards of one rank are as many as their suits.
pub proof fn lemma_suits_with(c: Seq<Card>, v: int)
    requires
        c.no_duplicates(),
    ensures
        suits_with(c, v).finite(),
        count_of(rank_values(c), v) == suits_with(c, v).len(),
        forall|su: Suit|
            #[trigger] suits_with(c, v).contains(su) ==> exists|m: int|
                0 <= m < c.len() && c[m].rank.value() == v && #[trigger] c[m].suit == su,
    decreases c.len(),
{
    if c.len() > 0 {
        let w = c.drop_last();
        assert(w.no_duplicates()) by {
            assert forall|a: int, b: int| 0 <= a < w.len() && 0 <= b < w.len() && a != b implies w[a]
                != w[b] by {
                assert(w[a] == c[a] && w[b] == c[b]);
            }
        }
        lemma_suits_with(w, v);
        assert(rank_values(c).drop_last() =~= rank_values(w));
        let l = c.last();
        if l.rank.value() == v {
            if suits_with(w, v).contains(l.suit) {
                let m = choose|m: int|
                    0 <= m < w.len() && w[m].rank.value() == v && #[trigger] w[m].suit == l.suit;
                assert(Rank::from_index(w[m].rank.index()) == w[m].rank);
                assert(Rank::from_index(l.rank.index()) == l.rank);
                assert(w[m] == c[m]);
                assert(c[m] == c[c.len() - 1]);
            }
        }
        assert forall|su: Suit| #[trigger] suits_with(c, v).contains(su) implies exists|m: int|
            0 <= m < c.len() && c[m].rank.value() == v && #[trigger] c[m].suit == su by {
            if suits_with(w, v).contains(su) {
                let m = choose|m: int|
                    0 <= m < w.len() && w[m].rank.value() == v && #[trigger] w[m].suit == su;
                assert(c[m] == w[m]);
            } else {
                assert(c[c.len() - 1].suit == su);
            }
        }
    }
}

/// Without a card twice, no rank occurs more than four times.
pub proof fn lemma_rank_at_most_four(c: Seq<Card>, v: int)
    requires
        c.no_duplicates(),
    ensures
        count_of(rank_values(c), v) <= 4,
{
    lemma_suits_with(c, v);
    let all = set![Suit::Spades, Suit::Hearts, Suit::Diamonds, Suit::Clubs];
    assert(suits_with(c, v).subset_of(all)) by {
        assert forall|su: Suit| suits_with(c, v).contains(su) implies all.contains(su) by {
            match su {
                Suit::Spades => assert(all.contains(Suit::Spades)),
                Suit::Hearts => assert(all.contains(Suit::Hearts)),
                Suit::Diamonds => assert(all.contains(Suit::Diamonds)),
                Suit::Clubs => assert(all.contains(Suit::Clubs)),
            }
        }
    }
    assert(all.len() == 4) by {
        let e = Set::<Suit>::empty();
        assert(!e.insert(Suit::Spades).contains(Suit::Hearts));
        assert(!e.insert(Suit::Spades).insert(Suit::Hearts).contains(Suit::Diamonds));
        assert(!e.insert(Suit::Spades).insert(Suit::Hearts).insert(Suit::Diamonds).contains(
            Suit::Clubs,
        ));
    }
    vstd::set_lib::lemma_len_subset(suits_with(c, v), all);
}

/// A player's seven cards are distinct when no card is given twice.
pub proof fn lemma_seven_distinct(s: Seq<Option<Card>>, n: int, d: Seq<Card>, i: int)
    requires
        distinct_given(s),
        fresh_deck(s, d),
        none_count(s) <= d.len(),
        s.len() == 2 * n + 5,
        0 <= i < n,
    ensures
        seven_of(s, n, d, i).no_duplicates(),
{
    let c = seven_of(s, n, d, i);
    let pos = seq![2 * i, 2 * i + 1, 2 * n, 2 * n + 1, 2 * n + 2, 2 * n + 3, 2 * n + 4];
    assert forall|m: int| 0 <= m < 7 implies #[trigger] c[m] == dealt(s, d, pos[m]) by {}
    assert forall|a: int, b: int| 0 <= a < c.len() && 0 <= b < c.len() && a != b implies c[a]
        != c[b] by {
        assert(c[a] == dealt(s, d, pos[a]));
        assert(c[b] == dealt(s, d, pos[b]));
        if pos[a] < pos[b] {
            lemma_dealt_distinct(s, d, pos[a], pos[b]);
        } else {
            lemma_dealt_distinct(s, d, pos[b], pos[a]);
        }
    }
}

} // verus!
