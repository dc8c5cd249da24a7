//! Monte Carlo simulation: shuffle the deck, deal the unknown cards, score every player's seven
//! cards, and tally who wins and with which hand category, deal after deal.

use vstd::prelude::*;
use crate::card::Card;
use super::{category_of, Condition};
use super::deal::{
    all_slots, build_deck, count_unknown, dealt, distinct_given, fresh_deck, lemma_lemire_from_fresh,
    lemma_none_count_mono, lemma_none_count_step, lemma_rank_at_most_four,
    lemma_residual_deck, lemma_seven_distinct, lemma_shuffle_from_fresh, none_count, residual_deck,
    seven_of, slots,
};
use super::rng::{
    full_shuffle, lemire_from, partial_shuffle, shuffle,
    shuffle_from, swap_at, Rng,
};
use super::score::{code_bound, Scorer};

verus! {

/// How an evaluator shuffles its deck before each deal.
#[derive(Clone, Copy, PartialEq, Eq, Structural, Debug)]
pub enum Shuffle {
    /// Fisher-Yates over the whole deck, from the last position down.
    Full,
    /// Fisher-Yates over the first positions only, one per unknown slot, each drawn with
    /// Lemire's multiply-shift reduction.
    Lemire,
}

/// The deck and generator state after one shuffle; `need` is the number of unknown slots.
pub open spec fn shuffled(kind: Shuffle, d: Seq<Card>, x: u64, need: int) -> (Seq<Card>, u64) {
    match kind {
        Shuffle::Full => full_shuffle(d, x),
        Shuffle::Lemire => lemire_from(d, x, 0, need),
    }
}

/// The deck and generator state after `t` deals, starting from the residual deck of the slots
/// and generator state `x`. The deck is shuffled in place, deal after deal.
pub open spec fn state_after(kind: Shuffle, s: Seq<Option<Card>>, x: u64, t: nat) -> (
    Seq<Card>,
    u64,
)
    decreases t,
{
    if t == 0 {
        (residual_deck(s), x)
    } else {
        let p = state_after(kind, s, x, (t - 1) as nat);
        shuffled(kind, p.0, p.1, none_count(s) as int)
    }
}

/// Number of players of a slot list: two slots each, then five board slots.
pub open spec fn players_of(s: Seq<Option<Card>>) -> int {
    (s.len() - 5) / 2
}

/// The codes of the players in deal `t` (counted from 1).
pub open spec fn round_scores<'a>(
    sc: Scorer<'a>,
    kind: Shuffle,
    s: Seq<Option<Card>>,
    x: u64,
    t: nat,
) -> Seq<int> {
    let n = players_of(s);
    let d = state_after(kind, s, x, t).0;
    Seq::new(n as nat, |i: int| sc.score(seven_of(s, n, d, i)))
}

/// The best code of a deal, or 0 when there is no player.
pub open spec fn top_score(v: Seq<int>) -> int
    decreases v.len(),
{
    if v.len() == 0 {
        0
    } else {
        let m = top_score(v.drop_last());
        if v.last() > m {
            v.last()
        } else {
            m
        }
    }
}

/// How many entries of `v` equal `b`.
pub open spec fn count_equal(v: Seq<int>, b: int) -> nat
    decreases v.len(),
{
    if v.len() == 0 {
        0
    } else {
        count_equal(v.drop_last(), b) + (if v.last() == b {
            1nat
        } else {
            0nat
        })
    }
}

/// Player `i` has the best code of the deal, shared by exactly `k + 1` players.
pub open spec fn wins_with(v: Seq<int>, i: int, k: int) -> bool {
    v[i] == top_score(v) && count_equal(v, top_score(v)) == k + 1
}

/// Over the first `r` deals, how many player `i` won together with exactly `k` others.
pub open spec fn win_count<'a>(
    sc: Scorer<'a>,
    kind: Shuffle,
    s: Seq<Option<Card>>,
    x: u64,
    r: nat,
    i: int,
    k: int,
) -> nat
    decreases r,
{
    if r == 0 {
        0
    } else {
        win_count(sc, kind, s, x, (r - 1) as nat, i, k) + (if wins_with(
            round_scores(sc, kind, s, x, r),
            i,
            k,
        ) {
            1nat
        } else {
            0nat
        })
    }
}

/// Over the first `r` deals, how many gave player `i` a hand of category `c`.
pub open spec fn category_count<'a>(
    sc: Scorer<'a>,
    kind: Shuffle,
    s: Seq<Option<Card>>,
    x: u64,
    r: nat,
    i: int,
    c: int,
) -> nat
    decreases r,
{
    if r == 0 {
        0
    } else {
        category_count(sc, kind, s, x, (r - 1) as nat, i, c) + (if category_of(
            round_scores(sc, kind, s, x, r)[i],
        ) == c {
            1nat
        } else {
            0nat
        })
    }
}

/// What a simulation counted, per player.
pub struct SimTally {
    /// Number of players.
    pub players: usize,
    /// Entry `i * players + k`: deals player `i` won together with exactly `k` others.
    pub wins: Vec<u32>,
    /// Entry `i`, position `c`: deals that gave player `i` a hand of category `c`.
    pub categories: Vec<[u32; 10]>,
}

impl SimTally {
    /// Deals player `i` won together with exactly `k` others.
    pub open spec fn win(&self, i: int, k: int) -> int {
        self.wins@[i * self.players + k] as int
    }

    /// Deals that gave player `i` a hand of category `c`.
    pub open spec fn category(&self, i: int, c: int) -> int {
        self.categories@[i][c] as int
    }

    /// The vectors have one row per player.
    pub open spec fn shaped(&self) -> bool {
        &&& self.wins@.len() == self.players * self.players
        &&& self.categories@.len() == self.players
    }

    /// The tally holds the counts of the first `r` deals of a simulation.
    pub open spec fn counts<'a>(
        &self,
        sc: Scorer<'a>,
        kind: Shuffle,
        s: Seq<Option<Card>>,
        x: u64,
        r: nat,
    ) -> bool {
        &&& self.shaped()
        &&& self.players == players_of(s)
        &&& forall|i: int, k: int|
            0 <= i < self.players && 0 <= k < self.players ==> #[trigger] self.win(i, k)
                == win_count(sc, kind, s, x, r, i, k)
        &&& forall|i: int, c: int|
            0 <= i < self.players && 0 <= c < 10 ==> #[trigger] self.category(i, c)
                == category_count(sc, kind, s, x, r, i, c)
    }
}

/// Position `i * n + k` of a flat `n` by `n` table is in range, and different cells have
/// different positions.
pub proof fn lemma_cell(n: int, i: int, k: int)
    requires
        0 <= i < n,
        0 <= k < n,
    ensures
        0 <= i * n + k < n * n,
        forall|i2: int, k2: int|
            0 <= i2 < n && 0 <= k2 < n && (i2 != i || k2 != k) ==> #[trigger] (i2 * n + k2) != i
                * n + k,
{
    assert(0 <= i * n + k < n * n) by (nonlinear_arith)
        requires
            0 <= i < n,
            0 <= k < n,
    ;
    assert forall|i2: int, k2: int|
        0 <= i2 < n && 0 <= k2 < n && (i2 != i || k2 != k) implies #[trigger] (i2 * n + k2) != i * n
        + k by {
        if i2 < i {
            assert(i2 * n + k2 < i * n + k) by (nonlinear_arith)
                requires
                    0 <= i2 < i,
                    0 <= k2 < n,
                    0 <= k,
            ;
        } else if i < i2 {
            assert(i * n + k < i2 * n + k2) by (nonlinear_arith)
                requires
                    0 <= i < i2,
                    0 <= k < n,
                    0 <= k2,
            ;
        }
    }
}

/// Deal counts never exceed the number of deals.
pub proof fn lemma_counts_bounded<'a>(
    sc: Scorer<'a>,
    kind: Shuffle,
    s: Seq<Option<Card>>,
    x: u64,
    r: nat,
    i: int,
    k: int,
)
    ensures
        win_count(sc, kind, s, x, r, i, k) <= r,
        category_count(sc, kind, s, x, r, i, k) <= r,
    decreases r,
{
    if r > 0 {
        lemma_counts_bounded(sc, kind, s, x, (r - 1) as nat, i, k);
    }
}

/// Every deal is dealt from a deck of distinct cards, none of them given, as long as the deck.
pub proof fn lemma_state_fresh(kind: Shuffle, s: Seq<Option<Card>>, x: u64, t: nat)
    requires
        none_count(s) <= residual_deck(s).len(),
    ensures
        fresh_deck(s, state_after(kind, s, x, t).0),
        state_after(kind, s, x, t).0.len() == residual_deck(s).len(),
    decreases t,
{
    if t == 0 {
        lemma_residual_deck(s);
    } else {
        lemma_state_fresh(kind, s, x, (t - 1) as nat);
        let p = state_after(kind, s, x, (t - 1) as nat);
        match kind {
            Shuffle::Full => lemma_shuffle_from_fresh(s, p.0, p.1, p.0.len() - 1),
            Shuffle::Lemire => lemma_lemire_from_fresh(s, p.0, p.1, 0, none_count(s) as int),
        }
    }
}

impl<'a> Scorer<'a> {
    /// What a simulation needs to use the scorer on a game: lookup tables must be valid and
    /// no card may be given twice.
    pub open spec fn ready_for(&self, s: Seq<Option<Card>>) -> bool {
        match self {
            Scorer::Table(lut) => lut.valid() && distinct_given(s),
            _ => true,
        }
    }
}

/// A scorer ready for a game is ready for every player's seven cards from a dealing deck.
pub proof fn lemma_seven_ready<'a>(sc: Scorer<'a>, s: Seq<Option<Card>>, d: Seq<Card>, i: int)
    requires
        sc.ready_for(s),
        fresh_deck(s, d),
        none_count(s) <= d.len(),
        s.len() >= 5,
        (s.len() - 5) % 2 == 0,
        0 <= i < players_of(s),
    ensures
        sc.ready(seven_of(s, players_of(s), d, i)),
{
    if sc.uses_tables() {
        lemma_seven_distinct(s, players_of(s), d, i);
        assert forall|v: int| 2 <= v < 15 implies #[trigger] super::model::count_of(
            super::model::rank_values(seven_of(s, players_of(s), d, i)),
            v,
        ) <= 4 by {
            lemma_rank_at_most_four(seven_of(s, players_of(s), d, i), v);
        }
    }
}

/// Fills every slot: given cards stay, unknown slots take the deck's cards in order.
pub fn fill_slots(s: &Vec<Option<Card>>, deck: &Vec<Card>) -> (f: Vec<Card>)
    requires
        none_count(s@) <= deck@.len(),
    ensures
        f@.len() == s@.len(),
        forall|k: int| 0 <= k < s@.len() ==> #[trigger] f@[k] == dealt(s@, deck@, k),
{
    let mut f: Vec<Card> = Vec::new();
    let dlen = deck.len();
    let mut cur: usize = 0;
    let mut k: usize = 0;
    while k < s.len()
        invariant
            k <= s@.len(),
            dlen == deck@.len(),
            none_count(s@) <= deck@.len(),
            f@.len() == k,
            cur == none_count(s@.take(k as int)),
            forall|q: int| 0 <= q < k ==> #[trigger] f@[q] == dealt(s@, deck@, q),
        decreases s@.len() - k,
    {
        proof {
            lemma_none_count_step(s@, k as int);
            lemma_none_count_mono(s@, k + 1, s@.len() as int);
        }
        match s[k] {
            Some(c) => {
                f.push(c);
            },
            None => {
                assert(s@[k as int] is None);
                assert(cur + 1 <= deck@.len());
                f.push(deck[cur]);
                cur = cur + 1;
            },
        }
        k = k + 1;
    }
    f
}

/// The codes as integers.
pub open spec fn as_ints(v: Seq<u32>) -> Seq<int> {
    v.map_values(|r: u32| r as int)
}

/// The seven cards of player `i` among filled slots: the two hole slots, then the board.
pub open spec fn seven_at(f: Seq<Card>, n: int, i: int) -> Seq<Card> {
    seq![f[2 * i], f[2 * i + 1], f[2 * n], f[2 * n + 1], f[2 * n + 2], f[2 * n + 3], f[2 * n + 4]]
}

/// Scores every player's seven cards: the two hole slots, then the five board slots.
pub fn score_players(sc: &Scorer, filled: &Vec<Card>, n: usize) -> (ranks: Vec<u32>)
    requires
        filled@.len() == 2 * n + 5,
        forall|i: int|
            0 <= i < n ==> sc.ready(
                #[trigger] seven_at(filled@, n as int, i),
            ),
    ensures
        ranks@.len() == n,
        forall|i: int|
            0 <= i < n ==> #[trigger] ranks@[i] == sc.score(
                seven_at(filled@, n as int, i),
            ),
        forall|i: int| 0 <= i < n ==> #[trigger] ranks@[i] < code_bound(),
{
    let mut ranks: Vec<u32> = Vec::new();
    let flen = filled.len();
    let mut i: usize = 0;
    while i < n
        invariant
            i <= n,
            flen == filled@.len(),
            filled@.len() == 2 * n + 5,
            forall|j: int|
                0 <= j < n ==> sc.ready(
                    #[trigger] seven_at(filled@, n as int, j),
                ),
            ranks@.len() == i,
            forall|j: int|
                0 <= j < i ==> #[trigger] ranks@[j] == sc.score(
                    seven_at(filled@, n as int, j),
                ),
            forall|j: int| 0 <= j < i ==> #[trigger] ranks@[j] < code_bound(),
        decreases n - i,
    {
        let seven: [Card; 7] = [
            filled[2 * i],
            filled[2 * i + 1],
            filled[2 * n],
            filled[2 * n + 1],
            filled[2 * n + 2],
            filled[2 * n + 3],
            filled[2 * n + 4],
        ];
        let ghost sq = seven_at(filled@, n as int, i as int);
        assert(seven@ =~= sq);
        assert(sc.ready(sq));
        let r = sc.score_exec(&seven);
        ranks.push(r);
        i = i + 1;
    }
    ranks
}

/// The best code, or 0 when there is none.
pub fn top_code(ranks: &Vec<u32>) -> (b: u32)
    ensures
        b == top_score(as_ints(ranks@)),
{
    let mut b: u32 = 0;
    let mut i: usize = 0;
    while i < ranks.len()
        invariant
            i <= ranks@.len(),
            b == top_score(as_ints(ranks@.take(i as int))),
        decreases ranks@.len() - i,
    {
        proof {
            assert(as_ints(ranks@.take(i + 1)).drop_last() =~= as_ints(ranks@.take(i as int)));
        }
        if ranks[i] > b {
            b = ranks[i];
        }
        i = i + 1;
    }
    assert(ranks@.take(ranks@.len() as int) =~= ranks@);
    b
}

/// How many codes equal `b`.
pub fn count_code(ranks: &Vec<u32>, b: u32) -> (c: usize)
    ensures
        c == count_equal(as_ints(ranks@), b as int),
{
    let mut c: usize = 0;
    let mut i: usize = 0;
    while i < ranks.len()
        invariant
            i <= ranks@.len(),
            c <= i,
            c == count_equal(as_ints(ranks@.take(i as int)), b as int),
        decreases ranks@.len() - i,
    {
        proof {
            assert(as_ints(ranks@.take(i + 1)).drop_last() =~= as_ints(ranks@.take(i as int)));
        }
        if ranks[i] == b {
            c = c + 1;
        }
        i = i + 1;
    }
    assert(ranks@.take(ranks@.len() as int) =~= ranks@);
    c
}

/// A deal's best code is held by at least one player, and by at most all of them.
pub proof fn lemma_count_equal(v: Seq<int>, b: int, i: int)
    requires
        0 <= i < v.len(),
        v[i] == b,
    ensures
        1 <= count_equal(v, b) <= v.len(),
    decreases v.len(),
{
    lemma_count_equal_le(v.drop_last(), b);
    if i < v.len() - 1 {
        lemma_count_equal(v.drop_last(), b, i);
    }
}

/// No more entries equal `b` than there are entries.
pub proof fn lemma_count_equal_le(v: Seq<int>, b: int)
    ensures
        count_equal(v, b) <= v.len(),
    decreases v.len(),
{
    if v.len() > 0 {
        lemma_count_equal_le(v.drop_last(), b);
    }
}

/// Adds one deal to the counts: each best player gains a win shared by as many players as hold
/// the best code, and each player's category gains one.
pub fn record_deal(wins: &mut Vec<u32>, cats: &mut Vec<[u32; 10]>, n: usize, ranks: &Vec<u32>)
    requires
        old(wins)@.len() == n * n,
        old(cats)@.len() == n,
        ranks@.len() == n,
        forall|i: int| 0 <= i < n ==> #[trigger] ranks@[i] < code_bound(),
        forall|q: int| 0 <= q < n * n ==> #[trigger] old(wins)@[q] < u32::MAX,
        forall|i: int, c: int| 0 <= i < n && 0 <= c < 10 ==> #[trigger] old(cats)@[i][c] < u32::MAX,
    ensures
        final(wins)@.len() == n * n,
        final(cats)@.len() == n,
        forall|i: int, k: int|
            0 <= i < n && 0 <= k < n ==> #[trigger] final(wins)@[i * n + k] == old(wins)@[i * n + k]
                + (if wins_with(as_ints(ranks@), i, k) {
                1int
            } else {
                0int
            }),
        forall|i: int, c: int|
            0 <= i < n && 0 <= c < 10 ==> #[trigger] final(cats)@[i][c] == old(cats)@[i][c] + (if category_of(
                ranks@[i] as int,
            ) == c {
                1int
            } else {
                0int
            }),
{
    let best = top_code(ranks);
    let nw = count_code(ranks, best);
    let ghost v = as_ints(ranks@);
    let ghost w0 = wins@;
    let ghost c0 = cats@;
    let wl = wins.len();
    let mut i: usize = 0;
    while i < n
        invariant
            i <= n,
            wl == n * n,
            ranks@.len() == n,
            v == as_ints(ranks@),
            best == top_score(v),
            nw == count_equal(v, best as int),
            forall|j: int| 0 <= j < n ==> #[trigger] ranks@[j] < code_bound(),
            w0.len() == n * n,
            c0.len() == n,
            forall|q: int| 0 <= q < n * n ==> #[trigger] w0[q] < u32::MAX,
            forall|j: int, c: int| 0 <= j < n && 0 <= c < 10 ==> #[trigger] c0[j][c] < u32::MAX,
            wins@.len() == n * n,
            cats@.len() == n,
            forall|j: int, k: int|
                0 <= j < n && 0 <= k < n ==> #[trigger] wins@[j * n + k] == w0[j * n + k] + (if j < i
                    && wins_with(v, j, k) {
                    1int
                } else {
                    0int
                }),
            forall|j: int, c: int|
                0 <= j < n && 0 <= c < 10 ==> #[trigger] cats@[j][c] == c0[j][c] + (if j < i
                    && category_of(ranks@[j] as int) == c {
                    1int
                } else {
                    0int
                }),
        decreases n - i,
    {
        let ghost wb = wins@;
        if ranks[i] == best {
            proof {
                lemma_count_equal(v, best as int, i as int);
                lemma_cell(n as int, i as int, nw - 1);
            }
            let idx = i * n + (nw - 1);
            let old_val = wins[idx];
            wins.set(idx, old_val + 1);
            proof {
                assert forall|j: int, k: int| 0 <= j < n && 0 <= k < n implies #[trigger] wins@[j
                    * n + k] == w0[j * n + k] + (if j < i + 1 && wins_with(v, j, k) {
                    1int
                } else {
                    0int
                }) by {
                    lemma_cell(n as int, j, k);
                    if j == i && k == nw - 1 {
                    } else {
                        assert(wb[j * n + k] == wins@[j * n + k]);
                    }
                }
            }
        } else {
            proof {
                assert forall|j: int, k: int| 0 <= j < n && 0 <= k < n implies #[trigger] wins@[j
                    * n + k] == w0[j * n + k] + (if j < i + 1 && wins_with(v, j, k) {
                    1int
                } else {
                    0int
                }) by {
                    lemma_cell(n as int, j, k);
                }
            }
        }
        let r = ranks[i];
        let c = super::category(r);
        assert(r >> 20u32 < 10 && r >> 20u32 == r / 1048576) by (bit_vector)
            requires
                r < 0xA00000u32,
        ;
        let mut row: [u32; 10] = cats[i];
        let cur = row[c as usize];
        row[c as usize] = cur + 1;
        let ghost cb = cats@;
        cats.set(i, row);
        proof {
            assert forall|j: int, cc: int| 0 <= j < n && 0 <= cc < 10 implies #[trigger] cats@[j][cc]
                == c0[j][cc] + (if j < i + 1 && category_of(ranks@[j] as int) == cc {
                1int
            } else {
                0int
            }) by {
                if j != i {
                    assert(cats@[j] == cb[j]);
                }
            }
        }
        i = i + 1;
    }
}

/// Plays `iterations` deals of a game given as slots (two per player, then the five board
/// slots): before each deal the deck, which starts as the residual deck, is shuffled in place
/// with the generator; then every unknown slot takes the next card of the deck, every player's
/// seven cards are scored, and the wins and categories are counted.
pub fn simulate(sc: &Scorer, kind: Shuffle, s: &Vec<Option<Card>>, iterations: u32, rng: &mut Rng) -> (t: SimTally)
    requires
        s@.len() >= 5,
        (s@.len() - 5) % 2 == 0,
        players_of(s@) * players_of(s@) <= usize::MAX,
        none_count(s@) <= residual_deck(s@).len(),
        sc.ready_for(s@),
    ensures
        t.counts(*sc, kind, s@, old(rng).0, iterations as nat),
        t.balanced(iterations as int),
        final(rng).0 == state_after(kind, s@, old(rng).0, iterations as nat).1,
{
    let n = (s.len() - 5) / 2;
    let need = count_unknown(s);
    let mut deck = build_deck(s);
    proof {
        lemma_state_fresh(kind, s@, rng.0, 0);
    }
    let mut wins: Vec<u32> = Vec::new();
    let nn = n * n;
    let mut q: usize = 0;
    while q < nn
        invariant
            q <= nn,
            wins@.len() == q,
            forall|p: int| 0 <= p < q ==> #[trigger] wins@[p] == 0,
        decreases nn - q,
    {
        wins.push(0);
        q = q + 1;
    }
    let mut cats: Vec<[u32; 10]> = Vec::new();
    let mut q: usize = 0;
    while q < n
        invariant
            q <= n,
            cats@.len() == q,
            forall|p: int, c: int| 0 <= p < q && 0 <= c < 10 ==> #[trigger] cats@[p][c] == 0,
        decreases n - q,
    {
        cats.push([0u32; 10]);
        q = q + 1;
    }
    let ghost x0 = rng.0;
    let ghost mut ties: Seq<int> = Seq::new(n as nat, |k: int| 0int);
    proof {
        assert forall|i: int, k: int| 0 <= i < n && 0 <= k < n implies #[trigger] wins@[i * n + k]
            == 0 by {
            lemma_cell(n as int, i, k);
        }
        assert forall|k: int| 0 <= k < n implies #[trigger] column_sum(wins@, n as int, k, n as int)
            == (k + 1) * ties[k] by {
            lemma_column_zero(wins@, n as int, k, n as int);
        }
        lemma_int_sum_zero(ties, n as int);
        assert forall|i: int| 0 <= i < n implies #[trigger] row_sum(cats@[i]@, 10) == 0 by {
            lemma_row_sum_zero(cats@[i]@, 10);
        }
    }
    let mut t: u32 = 0;
    while t < iterations
        invariant
            t <= iterations,
            s@.len() == 2 * n + 5,
            n == players_of(s@),
            nn == n * n,
            need == none_count(s@),
            none_count(s@) <= residual_deck(s@).len(),
            sc.ready_for(s@),
            deck@ == state_after(kind, s@, x0, t as nat).0,
            rng.0 == state_after(kind, s@, x0, t as nat).1,
            wins@.len() == n * n,
            cats@.len() == n,
            forall|i: int, k: int|
                0 <= i < n && 0 <= k < n ==> #[trigger] wins@[i * n + k] == win_count(
                    *sc,
                    kind,
                    s@,
                    x0,
                    t as nat,
                    i,
                    k,
                ),
            forall|i: int, c: int|
                0 <= i < n && 0 <= c < 10 ==> #[trigger] cats@[i][c] == category_count(
                    *sc,
                    kind,
                    s@,
                    x0,
                    t as nat,
                    i,
                    c,
                ),
            forall|i: int| 0 <= i < n ==> #[trigger] row_sum(cats@[i]@, 10) == t,
            ties.len() == n,
            forall|k: int|
                0 <= k < n ==> #[trigger] column_sum(wins@, n as int, k, n as int) == (k + 1)
                    * ties[k],
            n > 0 ==> int_sum(ties, n as int) == t,
        decreases iterations - t,
    {
        proof {
            lemma_state_fresh(kind, s@, x0, t as nat);
        }
        match kind {
            Shuffle::Full => shuffle(rng, &mut deck),
            Shuffle::Lemire => partial_shuffle(rng, &mut deck, need),
        }
        let ghost t1 = (t + 1) as nat;
        assert(deck@ == state_after(kind, s@, x0, t1).0);
        proof {
            lemma_state_fresh(kind, s@, x0, t1);
        }
        let filled = fill_slots(s, &deck);
        proof {
            assert forall|i: int| 0 <= i < n implies #[trigger] seven_at(filled@, n as int, i)
                == seven_of(s@, n as int, deck@, i) by {
                assert(seven_at(filled@, n as int, i) =~= seven_of(s@, n as int, deck@, i));
            }
            assert forall|i: int| 0 <= i < n implies sc.ready(
                #[trigger] seven_at(filled@, n as int, i),
            ) by {
                lemma_seven_ready(*sc, s@, deck@, i);
            }
        }
        let ranks = score_players(sc, &filled, n);
        proof {
            assert(as_ints(ranks@) =~= round_scores(*sc, kind, s@, x0, t1));
            assert forall|p: int| 0 <= p < n * n implies #[trigger] wins@[p] < u32::MAX by {
                let i = p / n as int;
                let k = p % n as int;
                assert(0 <= i < n && 0 <= k < n && p == i * n + k) by (nonlinear_arith)
                    requires
                        0 <= p < n * n,
                        i == p / n as int,
                        k == p % n as int,
                ;
                lemma_counts_bounded(*sc, kind, s@, x0, t as nat, i, k);
            }
            assert forall|i: int, c: int| 0 <= i < n && 0 <= c < 10 implies #[trigger] cats@[i][c]
                < u32::MAX by {
                lemma_counts_bounded(*sc, kind, s@, x0, t as nat, i, c);
            }
        }
        let ghost w_before = wins@;
        let ghost c_before = cats@;
        record_deal(&mut wins, &mut cats, n, &ranks);
        proof {
            let v = as_ints(ranks@);
            assert forall|i: int| 0 <= i < n implies #[trigger] row_sum(cats@[i]@, 10) == t + 1 by {
                let r = ranks@[i];
                assert(r >> 20u32 < 10 && r >> 20u32 == r / 1048576) by (bit_vector)
                    requires
                        r < 0xA00000u32,
                ;
                lemma_row_sum_step(c_before[i]@, cats@[i]@, category_of(r as int), 10);
            }
            assert forall|k: int| 0 <= k < n implies #[trigger] column_sum(wins@, n as int, k, n as int)
                == column_sum(w_before, n as int, k, n as int) + (if count_equal(v, top_score(v)) == k
                + 1 {
                count_equal(v, top_score(v)) as int
            } else {
                0int
            }) by {
                lemma_column_step(w_before, wins@, n as int, k, v, n as int);
                lemma_winners_upto(v, k, n as int);
                assert(v.take(n as int) =~= v);
            }
            if n > 0 {
                lemma_top_attained(v);
                let i0 = choose|i: int| 0 <= i < v.len() && v[i] == top_score(v);
                lemma_count_equal(v, top_score(v), i0);
                let nw = count_equal(v, top_score(v)) as int;
                let ties2 = ties.update(nw - 1, ties[nw - 1] + 1);
                lemma_int_sum_step(ties, nw - 1, n as int);
                assert forall|k: int| 0 <= k < n implies #[trigger] column_sum(
                    wins@,
                    n as int,
                    k,
                    n as int,
                ) == (k + 1) * ties2[k] by {
                    if k == nw - 1 {
                        assert((k + 1) * (ties[k] + 1) == (k + 1) * ties[k] + (k + 1)) by (
                        nonlinear_arith);
                    }
                }
                ties = ties2;
            }
        }
        t = t + 1;
    }
    proof {
        assert forall|k: int| 0 <= k < n implies #[trigger] column_sum(wins@, n as int, k, n as int)
            % (k + 1) == 0 by {
            assert(((k + 1) * ties[k]) % (k + 1) == 0) by (nonlinear_arith)
                requires
                    k >= 0,
            ;
        }
        if n > 0 {
            lemma_shares(wins@, n as int, ties, n as int);
        }
    }
    SimTally { players: n, wins, categories: cats }
}

/// The generator state a seed starts from: a zero seed is replaced by 1.
pub open spec fn start_state(seed: u64) -> u64 {
    if seed == 0 {
        1
    } else {
        seed
    }
}

/// The slots of a condition: each player's two, then the board's five.
pub open spec fn condition_slots(c: &Condition) -> Seq<Option<Card>> {
    slots(c.players@, c.board@)
}

/// The deck left after the given cards has a card for every unknown slot.
pub open spec fn dealable(c: &Condition) -> bool {
    none_count(condition_slots(c)) <= residual_deck(condition_slots(c)).len()
}

/// Plays the deals of a condition with a scorer and a shuffle, from the generator's state.
pub fn run_condition(sc: &Scorer, kind: Shuffle, condition: &Condition, rng: &mut Rng) -> (t: SimTally)
    requires
        condition.players@.len() * condition.players@.len() <= usize::MAX,
        2 * condition.players@.len() + 5 <= usize::MAX,
        dealable(condition),
        sc.ready_for(condition_slots(condition)),
    ensures
        t.counts(*sc, kind, condition_slots(condition), old(rng).0, condition.iterations as nat),
        t.balanced(condition.iterations as int),
        final(rng).0 == state_after(
            kind,
            condition_slots(condition),
            old(rng).0,
            condition.iterations as nat,
        ).1,
{
    let s = all_slots(&condition.players, &condition.board);
    let ghost n = condition.players@.len() as int;
    assert(s@.len() == 2 * n + 5);
    assert(players_of(s@) == n) by {
        assert((2 * n + 5 - 5) / 2 == n);
    }
    simulate(sc, kind, &s, condition.iterations, rng)
}

/// A table of at most nine players is small.
pub proof fn lemma_few_players(n: int)
    requires
        0 <= n <= super::MAX_PLAYERS,
    ensures
        n * n <= 81,
        2 * n + 5 <= 23,
{
    assert(n * n <= 81) by (nonlinear_arith)
        requires
            0 <= n <= 9,
    ;
}

/// Sum of the first `m` entries of a row.
pub open spec fn row_sum(r: Seq<u32>, m: int) -> int
    decreases m,
{
    if m <= 0 {
        0
    } else {
        row_sum(r, m - 1) + r[m - 1]
    }
}

/// Sum over the first `m` players of flat entry `i * n + k`.
pub open spec fn column_sum(w: Seq<u32>, n: int, k: int, m: int) -> int
    decreases m,
{
    if m <= 0 {
        0
    } else {
        column_sum(w, n, k, m - 1) + w[(m - 1) * n + k]
    }
}

/// Sum over the first `m` columns of the column sum divided by the number of winners it
/// counts: the win shares of all players together.
pub open spec fn shares_sum(w: Seq<u32>, n: int, m: int) -> int
    decreases m,
{
    if m <= 0 {
        0
    } else {
        shares_sum(w, n, m - 1) + column_sum(w, n, m - 1, n) / m
    }
}

/// Sum of the first `m` entries of a sequence of integers.
pub open spec fn int_sum(t: Seq<int>, m: int) -> int
    decreases m,
{
    if m <= 0 {
        0
    } else {
        int_sum(t, m - 1) + t[m - 1]
    }
}

/// Number of the first `m` players that win with exactly `k` others.
pub open spec fn winners_upto(v: Seq<int>, k: int, m: int) -> int
    decreases m,
{
    if m <= 0 {
        0
    } else {
        winners_upto(v, k, m - 1) + (if wins_with(v, m - 1, k) {
            1int
        } else {
            0int
        })
    }
}

impl SimTally {
    /// Every deal gave each player exactly one category, and the win shares of every deal
    /// (one deal split evenly among its best players) add up to one: each column `k` counts
    /// whole deals of `k + 1` winners, and the shares of all players add up to `deals`.
    pub open spec fn balanced(&self, deals: int) -> bool {
        &&& forall|i: int|
            0 <= i < self.players ==> #[trigger] row_sum(self.categories@[i]@, 10) == deals
        &&& forall|k: int|
            0 <= k < self.players ==> #[trigger] column_sum(
                self.wins@,
                self.players as int,
                k,
                self.players as int,
            ) % (k + 1) == 0
        &&& self.players > 0 ==> shares_sum(self.wins@, self.players as int, self.players as int)
            == deals
    }
}

/// Adding one at position `c0` adds one to the sum of a row that covers it.
proof fn lemma_row_sum_step(a: Seq<u32>, b: Seq<u32>, c0: int, m: int)
    requires
        0 <= m <= a.len(),
        a.len() == b.len(),
        forall|c: int| 0 <= c < a.len() ==> #[trigger] b[c] == a[c] + (if c == c0 {
            1int
        } else {
            0int
        }),
    ensures
        row_sum(b, m) == row_sum(a, m) + (if 0 <= c0 < m {
            1int
        } else {
            0int
        }),
    decreases m,
{
    if m > 0 {
        lemma_row_sum_step(a, b, c0, m - 1);
    }
}

/// A column sum after one deal grows by the players of that column who won the deal.
proof fn lemma_column_step(a: Seq<u32>, b: Seq<u32>, n: int, k: int, v: Seq<int>, m: int)
    requires
        0 <= m <= n,
        0 <= k < n,
        a.len() == n * n,
        b.len() == n * n,
        forall|i: int, kk: int|
            0 <= i < n && 0 <= kk < n ==> #[trigger] b[i * n + kk] == a[i * n + kk] + (if wins_with(
                v,
                i,
                kk,
            ) {
                1int
            } else {
                0int
            }),
    ensures
        column_sum(b, n, k, m) == column_sum(a, n, k, m) + winners_upto(v, k, m),
    decreases m,
{
    if m > 0 {
        lemma_column_step(a, b, n, k, v, m - 1);
        assert(b[(m - 1) * n + k] == a[(m - 1) * n + k] + (if wins_with(v, m - 1, k) {
            1int
        } else {
            0int
        }));
    }
}

/// The players of one column who won a deal: all holders of the best code when the best code
/// is shared by exactly `k + 1` of them, none otherwise.
proof fn lemma_winners_upto(v: Seq<int>, k: int, m: int)
    requires
        0 <= m <= v.len(),
    ensures
        winners_upto(v, k, m) == (if count_equal(v, top_score(v)) == k + 1 {
            count_equal(v.take(m), top_score(v)) as int
        } else {
            0int
        }),
    decreases m,
{
    if m > 0 {
        lemma_winners_upto(v, k, m - 1);
        assert(v.take(m).drop_last() =~= v.take(m - 1));
    } else {
        assert(v.take(0) =~= Seq::<int>::empty());
    }
}

/// The best of non-negative codes is one of them.
proof fn lemma_top_attained(v: Seq<int>)
    requires
        v.len() > 0,
        forall|i: int| 0 <= i < v.len() ==> #[trigger] v[i] >= 0,
    ensures
        exists|i: int| 0 <= i < v.len() && v[i] == top_score(v),
        top_score(v) >= 0,
    decreases v.len(),
{
    let w = v.drop_last();
    if w.len() > 0 {
        lemma_top_attained(w);
        let i = choose|i: int| 0 <= i < w.len() && w[i] == top_score(w);
        if v.last() <= top_score(w) {
            assert(v[i] == top_score(v));
        } else {
            assert(v[v.len() - 1] == top_score(v));
        }
    } else {
        assert(top_score(w) == 0);
        if v.last() > 0 {
            assert(v[v.len() - 1] == top_score(v));
        } else {
            assert(v[0] == top_score(v));
        }
    }
}

/// Adding one to entry `k0` adds one to a sum that covers it.
proof fn lemma_int_sum_step(t: Seq<int>, k0: int, m: int)
    requires
        0 <= k0 < t.len(),
        0 <= m <= t.len(),
    ensures
        int_sum(t.update(k0, t[k0] + 1), m) == int_sum(t, m) + (if k0 < m {
            1int
        } else {
            0int
        }),
    decreases m,
{
    if m > 0 {
        lemma_int_sum_step(t, k0, m - 1);
    }
}

/// When every column is its number of winners times a count of deals, the win shares add up
/// to those counts.
proof fn lemma_shares(w: Seq<u32>, n: int, t: Seq<int>, m: int)
    requires
        0 <= m <= n,
        t.len() == n,
        forall|k: int| 0 <= k < n ==> #[trigger] column_sum(w, n, k, n) == (k + 1) * t[k],
    ensures
        shares_sum(w, n, m) == int_sum(t, m),
    decreases m,
{
    if m > 0 {
        lemma_shares(w, n, t, m - 1);
        let k = m - 1;
        assert(((k + 1) * t[k]) / (k + 1) == t[k]) by (nonlinear_arith)
            requires
                k >= 0,
        ;
    }
}

/// A row of zeros sums to zero.
proof fn lemma_row_sum_zero(r: Seq<u32>, m: int)
    requires
        0 <= m <= r.len(),
        forall|c: int| 0 <= c < r.len() ==> #[trigger] r[c] == 0,
    ensures
        row_sum(r, m) == 0,
    decreases m,
{
    if m > 0 {
        lemma_row_sum_zero(r, m - 1);
    }
}

/// A column of zeros sums to zero.
proof fn lemma_column_zero(w: Seq<u32>, n: int, k: int, m: int)
    requires
        0 <= m <= n,
        0 <= k < n,
        w.len() == n * n,
        forall|i: int, kk: int| 0 <= i < n && 0 <= kk < n ==> #[trigger] w[i * n + kk] == 0,
    ensures
        column_sum(w, n, k, m) == 0,
    decreases m,
{
    if m > 0 {
        lemma_column_zero(w, n, k, m - 1);
        assert(w[(m - 1) * n + k] == 0);
    }
}

/// Zeros sum to zero.
proof fn lemma_int_sum_zero(t: Seq<int>, m: int)
    requires
        0 <= m <= t.len(),
        forall|k: int| 0 <= k < t.len() ==> #[trigger] t[k] == 0,
    ensures
        int_sum(t, m) == 0,
    decreases m,
{
    if m > 0 {
        lemma_int_sum_zero(t, m - 1);
    }
}

/// Whether the deck left after the given cards has a card for every unknown slot.
pub fn can_deal(condition: &Condition) -> (b: bool)
    requires
        2 * condition.players@.len() + 5 <= usize::MAX,
    ensures
        b == dealable(condition),
{
    let s = all_slots(&condition.players, &condition.board);
    let need = count_unknown(&s);
    let deck = build_deck(&s);
    need <= deck.len()
}

/// Whether no card is given in two slots of the condition.
pub fn cards_distinct(condition: &Condition) -> (b: bool)
    requires
        2 * condition.players@.len() + 5 <= usize::MAX,
    ensures
        b == distinct_given(condition_slots(condition)),
{
    let s = all_slots(&condition.players, &condition.board);
    let len = s.len();
    let mut a: usize = 0;
    while a < len
        invariant
            a <= len,
            len == s@.len(),
            s@ == condition_slots(condition),
            forall|x: int, y: int|
                0 <= x < a && 0 <= y < len && x != y && #[trigger] s@[x] is Some ==> s@[x]
                    != #[trigger] s@[y],
        decreases len - a,
    {
        if let Some(ca) = s[a] {
            let mut b: usize = 0;
            while b < len
                invariant
                    a < len,
                    b <= len,
                    len == s@.len(),
                    s@ == condition_slots(condition),
                    s@[a as int] == Some(ca),
                    forall|y: int| 0 <= y < b && y != a ==> s@[a as int] != #[trigger] s@[y],
                decreases len - b,
            {
                if b != a {
                    if let Some(cb) = s[b] {
                        if ca == cb {
                            proof {
                                let cs = condition_slots(condition);
                                assert(cs[a as int] == cs[b as int]);
                                assert(cs[a as int] is Some);
                            }
                            return false;
                        }
                    }
                }
                b = b + 1;
            }
        }
        a = a + 1;
    }
    true
}

/// A swap at each step keeps the cards, so every shuffle permutes the deck: the shuffled deck
/// holds the same cards as many times as before.
pub proof fn lemma_shuffle_permutes(kind: Shuffle, d: Seq<Card>, x: u64, need: int)
    requires
        0 <= need <= d.len(),
        d.len() <= usize::MAX,
    ensures
        shuffled(kind, d, x, need).0.to_multiset() == d.to_multiset(),
{
    match kind {
        Shuffle::Full => lemma_shuffle_from_permutes(d, x, d.len() - 1),
        Shuffle::Lemire => lemma_lemire_from_permutes(d, x, 0, need),
    }
}

proof fn lemma_shuffle_from_permutes(d: Seq<Card>, x: u64, i: int)
    requires
        i < d.len(),
    ensures
        shuffle_from(d, x, i).0.to_multiset() == d.to_multiset(),
    decreases i,
{
    if i >= 1 {
        let y = super::rng::xorshift(x);
        let j = (y as usize) as int % (i + 1);
        super::sort::lemma_swap_multiset(d, i, j);
        lemma_shuffle_from_permutes(swap_at(d, i, j), y, i - 1);
    }
}

proof fn lemma_lemire_from_permutes(d: Seq<Card>, x: u64, i: int, k: int)
    requires
        0 <= i,
        k <= d.len(),
        d.len() < 0x1_0000_0000_0000_0000,
    ensures
        lemire_from(d, x, i, k).0.to_multiset() == d.to_multiset(),
    decreases k - i,
{
    if i < k {
        let y = super::rng::xorshift(x);
        super::rng::lemma_lemire_bound(y, (d.len() - i) as u64);
        let j = i + super::rng::lemire(y, (d.len() - i) as u64);
        super::sort::lemma_swap_multiset(d, i, j);
        lemma_lemire_from_permutes(swap_at(d, i, j), y, i + 1, k);
    }
}

/// The players' codes when every card is given: the same in every deal.
pub open spec fn fixed_scores<'a>(sc: Scorer<'a>, s: Seq<Option<Card>>) -> Seq<int> {
    let n = players_of(s);
    Seq::new(n as nat, |i: int| sc.score(seven_of(s, n, Seq::empty(), i)))
}

/// With every card given, each deal gives the players the same codes, whatever the seed,
/// the shuffle or the deal.
pub proof fn lemma_known_round<'a>(sc: Scorer<'a>, kind: Shuffle, s: Seq<Option<Card>>, x: u64, t: nat)
    requires
        none_count(s) == 0,
        s.len() >= 5,
    ensures
        round_scores(sc, kind, s, x, t) == fixed_scores(sc, s),
{
    let n = players_of(s);
    let d = state_after(kind, s, x, t).0;
    assert forall|k: int| 0 <= k < s.len() implies #[trigger] s[k] is Some by {
        super::deal::lemma_none_count_step(s, k);
        super::deal::lemma_none_count_mono(s, k + 1, s.len() as int);
    }
    assert forall|i: int| 0 <= i < n implies seven_of(s, n, d, i) == #[trigger] seven_of(
        s,
        n,
        Seq::empty(),
        i,
    ) by {
        assert(2 * n + 5 <= s.len());
    }
    assert(round_scores(sc, kind, s, x, t) =~= fixed_scores(sc, s));
}

/// With every card given, the counts are the number of deals times what the one possible deal
/// gives: they depend neither on the seed nor on the shuffle.
pub proof fn lemma_known_counts<'a>(
    sc: Scorer<'a>,
    kind: Shuffle,
    s: Seq<Option<Card>>,
    x: u64,
    r: nat,
    i: int,
    k: int,
)
    requires
        none_count(s) == 0,
        s.len() >= 5,
    ensures
        win_count(sc, kind, s, x, r, i, k) == r * (if wins_with(fixed_scores(sc, s), i, k) {
            1int
        } else {
            0int
        }),
        category_count(sc, kind, s, x, r, i, k) == r * (if category_of(fixed_scores(sc, s)[i]) == k {
            1int
        } else {
            0int
        }),
    decreases r,
{
    if r > 0 {
        lemma_known_counts(sc, kind, s, x, (r - 1) as nat, i, k);
        lemma_known_round(sc, kind, s, x, r);
        assert((r - 1) * 1int + 1 == r * 1int);
    }
}

/// With every card given, two runs of the same number of deals count the same wins and
/// categories whatever their seeds and shuffles.
pub proof fn lemma_known_counts_any_seed<'a>(
    sc: Scorer<'a>,
    kind1: Shuffle,
    kind2: Shuffle,
    s: Seq<Option<Card>>,
    x1: u64,
    x2: u64,
    r: nat,
    i: int,
    k: int,
)
    requires
        none_count(s) == 0,
        s.len() >= 5,
    ensures
        win_count(sc, kind1, s, x1, r, i, k) == win_count(sc, kind2, s, x2, r, i, k),
        category_count(sc, kind1, s, x1, r, i, k) == category_count(sc, kind2, s, x2, r, i, k),
{
    lemma_known_counts(sc, kind1, s, x1, r, i, k);
    lemma_known_counts(sc, kind2, s, x2, r, i, k);
}

} // verus!
