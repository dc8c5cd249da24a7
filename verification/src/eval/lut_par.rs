//! The table evaluator split over workers: each worker plays its share of the deals with a
//! generator of its own, and the shares' counts are added up.

use vstd::prelude::*;
use super::{Condition, MAX_PLAYERS};
use super::deal::all_slots;
use super::lut::{lut_scorer, scorer_for, tables_ready, LutData};
use super::rng::{seeded_state, Rng};
use super::category_of;
use super::deal::none_count;
use super::score::Scorer;
use crate::card::Card;
use super::sim::{
    fixed_scores, lemma_known_counts, wins_with, win_count, category_count, column_sum, condition_slots, dealable, int_sum, lemma_few_players, players_of, row_sum,
    shares_sum, simulate, Shuffle, SimTally,
};

verus! {

/// The deals worker `tid` of `workers` plays: an equal share, and one more for each of the
/// first `iterations % workers` workers.
pub open spec fn chunk_spec(iterations: u32, workers: int, tid: int) -> int {
    iterations as int / workers + (if tid < iterations as int % workers {
        1int
    } else {
        0int
    })
}

/// The deals of the first `m` workers.
pub open spec fn chunk_total(iterations: u32, workers: int, m: int) -> int
    decreases m,
{
    if m <= 0 {
        0
    } else {
        chunk_total(iterations, workers, m - 1) + chunk_spec(iterations, workers, m - 1)
    }
}

/// The first `m` workers play `m` equal shares and one more deal each, up to the remainder.
proof fn lemma_chunk_prefix(iterations: u32, workers: int, m: int)
    requires
        1 <= workers,
        0 <= m <= workers,
    ensures
        chunk_total(iterations, workers, m) == m * (iterations as int / workers) + (if m
            < iterations as int % workers {
            m
        } else {
            iterations as int % workers
        }),
    decreases m,
{
    if m == 0 {
        assert(0 * (iterations as int / workers) == 0);
    } else {
        lemma_chunk_prefix(iterations, workers, m - 1);
        let q = iterations as int / workers;
        let r = iterations as int % workers;
        assert(m * q == (m - 1) * q + q) by (nonlinear_arith);
        assert(chunk_total(iterations, workers, m) == chunk_total(iterations, workers, m - 1)
            + chunk_spec(iterations, workers, m - 1));
        assert(chunk_spec(iterations, workers, m - 1) == q + (if m - 1 < r {
            1int
        } else {
            0int
        }));
    }
}

/// The workers' shares add up to all the deals.
pub proof fn lemma_chunks_cover(iterations: u32, workers: int)
    requires
        1 <= workers,
    ensures
        chunk_total(iterations, workers, workers) == iterations,
{
    lemma_chunk_prefix(iterations, workers, workers);
    let it = iterations as int;
    assert(workers * (it / workers) + it % workers == it) by (nonlinear_arith)
        requires
            1 <= workers,
    ;
    assert(it % workers < workers) by (nonlinear_arith)
        requires
            1 <= workers,
    ;
}

/// Sum over the parts of flat win entry `q`.
pub open spec fn total_win(parts: Seq<SimTally>, q: int) -> int
    decreases parts.len(),
{
    if parts.len() == 0 {
        0
    } else {
        total_win(parts.drop_last(), q) + parts.last().wins@[q] as int
    }
}

/// Sum over the parts of the count of category `c` for player `i`.
pub open spec fn total_category(parts: Seq<SimTally>, i: int, c: int) -> int
    decreases parts.len(),
{
    if parts.len() == 0 {
        0
    } else {
        total_category(parts.drop_last(), i, c) + parts.last().category(i, c)
    }
}

/// Every part counts `n` players and every sum fits in 32 bits.
pub open spec fn parts_fit(parts: Seq<SimTally>, n: int) -> bool {
    &&& forall|j: int|
        0 <= j < parts.len() ==> (#[trigger] parts[j]).players == n && parts[j].shaped()
    &&& forall|q: int| 0 <= q < n * n ==> #[trigger] total_win(parts, q) <= u32::MAX
    &&& forall|i: int, c: int|
        0 <= i < n && 0 <= c < 10 ==> #[trigger] total_category(parts, i, c) <= u32::MAX
}

/// Sums over a prefix of the parts never exceed the sums over all of them.
proof fn lemma_totals_mono(parts: Seq<SimTally>, m: int, q: int, i: int, c: int)
    requires
        0 <= m <= parts.len(),
    ensures
        total_win(parts.take(m), q) <= total_win(parts, q),
        total_category(parts.take(m), i, c) <= total_category(parts, i, c),
    decreases parts.len() - m,
{
    assert(parts.take(parts.len() as int) =~= parts);
    if m < parts.len() {
        lemma_totals_mono(parts, m + 1, q, i, c);
        assert(parts.take(m + 1).drop_last() =~= parts.take(m));
    }
}

/// Evaluator that plays the table evaluator's deals split over workers.
pub struct LutParEvaluator;

impl LutParEvaluator {
    /// The deals worker `tid` of `workers` plays.
    pub fn chunk_iterations(iterations: u32, workers: usize, tid: usize) -> (c: u32)
        requires
            1 <= workers <= u32::MAX,
        ensures
            c == chunk_spec(iterations, workers as int, tid as int),
    {
        let w = workers as u32;
        let base = iterations / w;
        let rem = (iterations % w) as usize;
        if tid < rem {
            assert(w >= 2) by {
                if w == 1 {
                    assert(iterations % 1 == 0);
                }
            }
            assert(base * w <= iterations) by (nonlinear_arith)
                requires
                    base == iterations / w,
                    w >= 1,
            ;
            assert(base * 2 <= base * w) by (nonlinear_arith)
                requires
                    w >= 2,
            ;
            base + 1
        } else {
            base
        }
    }

    /// Plays worker `tid`'s share of the condition's deals with its own generator, seeded from
    /// `base_seed` and `tid`; the table or direct scorer is chosen by the condition's total
    /// number of deals.
    pub fn run_chunk(
        &self,
        condition: &Condition,
        base_seed: u64,
        tid: usize,
        workers: usize,
        lut: Option<&LutData>,
    ) -> (t: SimTally)
        requires
            1 <= workers <= u32::MAX,
            condition.players@.len() <= MAX_PLAYERS,
            dealable(condition),
            tables_ready(condition, lut),
        ensures
            t.counts(
                lut_scorer(condition.iterations, lut),
                Shuffle::Lemire,
                condition_slots(condition),
                seeded_state(base_seed, tid as u64),
                chunk_spec(condition.iterations, workers as int, tid as int) as nat,
            ),
            t.balanced(chunk_spec(condition.iterations, workers as int, tid as int)),
    {
        let chunk = Self::chunk_iterations(condition.iterations, workers, tid);
        let sc = scorer_for(condition.iterations, lut);
        let mut rng = Rng::new_seeded(base_seed, tid);
        proof {
            lemma_few_players(condition.players@.len() as int);
        }
        let s = all_slots(&condition.players, &condition.board);
        let ghost n = condition.players@.len() as int;
        assert(players_of(s@) == n) by {
            assert((2 * n + 5 - 5) / 2 == n);
        }
        simulate(&sc, Shuffle::Lemire, &s, chunk, &mut rng)
    }

    /// Adds up the workers' counts, or `None` when a part does not count `players` players or
    /// a sum does not fit in 32 bits.
    pub fn merge(parts: &Vec<SimTally>, players: usize) -> (m: Option<SimTally>)
        ensures
            m is Some <==> players as int * players as int <= usize::MAX && parts_fit(
                parts@,
                players as int,
            ),
            m matches Some(t) ==> {
                &&& t.players == players
                &&& t.shaped()
                &&& forall|q: int|
                    0 <= q < players * players ==> #[trigger] t.wins@[q] == total_win(parts@, q)
                &&& forall|i: int, c: int|
                    0 <= i < players && 0 <= c < 10 ==> #[trigger] t.category(i, c)
                        == total_category(parts@, i, c)
            },
    {
        let n = players;
        let nn = match n.checked_mul(n) {
            Some(v) => v,
            None => {
                return None;
            },
        };
        let mut wins: Vec<u32> = Vec::new();
        let mut q: usize = 0;
        while q < nn
            invariant
                q <= nn,
                wins@.len() == q,
                forall|p: int| 0 <= p < q ==> #[trigger] wins@[p] == 0,
            decreases nn - q,
        {
            wins.push(0);
            q = q + 1;
        }
        let mut cats: Vec<[u32; 10]> = Vec::new();
        let mut q: usize = 0;
        while q < n
            invariant
                q <= n,
                cats@.len() == q,
                forall|p: int, c: int| 0 <= p < q && 0 <= c < 10 ==> #[trigger] cats@[p][c] == 0,
            decreases n - q,
        {
            cats.push([0u32; 10]);
            q = q + 1;
        }
        let mut j: usize = 0;
        while j < parts.len()
            invariant
                j <= parts@.len(),
                n == players,
                nn == n * n,
                wins@.len() == nn,
                cats@.len() == n,
                forall|jj: int|
                    0 <= jj < j ==> (#[trigger] parts@[jj]).players == n && parts@[jj].shaped(),
                forall|p: int| 0 <= p < nn ==> #[trigger] wins@[p] == total_win(parts@.take(j as int), p),
                forall|i: int, c: int|
                    0 <= i < n && 0 <= c < 10 ==> #[trigger] cats@[i][c] == total_category(
                        parts@.take(j as int),
                        i,
                        c,
                    ),
            decreases parts@.len() - j,
        {
            let part = &parts[j];
            proof {
                assert(parts@.take(j + 1).drop_last() =~= parts@.take(j as int));
                assert(parts@.take(j + 1).last() == parts@[j as int]);
            }
            if part.players != n || part.wins.len() != nn || part.categories.len() != n {
                proof {
                    assert(parts@[j as int].players != n || !parts@[j as int].shaped());
                    assert(!parts_fit(parts@, n as int));
                }
                return None;
            }
            let mut p: usize = 0;
            while p < nn
                invariant
                    p <= nn,
                    j < parts@.len(),
                    *part == parts@[j as int],
                    part.wins@.len() == nn,
                    nn == n * n,
                    wins@.len() == nn,
                    forall|pp: int|
                        0 <= pp < nn ==> #[trigger] wins@[pp] == total_win(
                            parts@.take(j as int),
                            pp,
                        ) + (if pp < p {
                            part.wins@[pp] as int
                        } else {
                            0
                        }),
                decreases nn - p,
            {
                proof {
                    assert(parts@.take(j + 1).drop_last() =~= parts@.take(j as int));
                    assert(parts@.take(j + 1).last() == parts@[j as int]);
                }
                let a = wins[p];
                let b = part.wins[p];
                match a.checked_add(b) {
                    Some(v) => {
                        wins.set(p, v);
                    },
                    None => {
                        proof {
                            assert(total_win(parts@.take(j + 1), p as int) > u32::MAX);
                            lemma_totals_mono(parts@, j + 1, p as int, 0, 0);
                        }
                        return None;
                    },
                }
                p = p + 1;
            }
            let mut i: usize = 0;
            while i < n
                invariant
                    i <= n,
                    j < parts@.len(),
                    *part == parts@[j as int],
                    part.categories@.len() == n,
                    cats@.len() == n,
                    forall|ii: int, c: int|
                        0 <= ii < n && 0 <= c < 10 ==> #[trigger] cats@[ii][c] == total_category(
                            parts@.take(j as int),
                            ii,
                            c,
                        ) + (if ii < i {
                            part.category(ii, c)
                        } else {
                            0
                        }),
                decreases n - i,
            {
                let mut row: [u32; 10] = cats[i];
                let other: [u32; 10] = part.categories[i];
                let ghost row0 = row@;
                let mut c: usize = 0;
                while c < 10
                    invariant
                        c <= 10,
                        i < n,
                        j < parts@.len(),
                        *part == parts@[j as int],
                        part.categories@.len() == n,
                        other == part.categories@[i as int],
                        forall|cc: int|
                            0 <= cc < 10 ==> #[trigger] row0[cc] == total_category(
                                parts@.take(j as int),
                                i as int,
                                cc,
                            ),
                        cats@.len() == n,
                        row0 == cats@[i as int]@,
                        forall|cc: int|
                            0 <= cc < 10 ==> #[trigger] row@[cc] == row0[cc] + (if cc < c {
                                other@[cc] as int
                            } else {
                                0
                            }),
                    decreases 10 - c,
                {
                    proof {
                        assert(parts@.take(j + 1).drop_last() =~= parts@.take(j as int));
                        assert(parts@.take(j + 1).last() == parts@[j as int]);
                    }
                    let a = row[c];
                    let b = other[c];
                    match a.checked_add(b) {
                        Some(v) => {
                            row[c] = v;
                        },
                        None => {
                            proof {
                                assert(total_category(parts@.take(j + 1), i as int, c as int)
                                    > u32::MAX);
                                lemma_totals_mono(parts@, j + 1, 0, i as int, c as int);
                            }
                            return None;
                        },
                    }
                    c = c + 1;
                }
                let ghost cb = cats@;
                cats.set(i, row);
                proof {
                    assert forall|ii: int, cc: int| 0 <= ii < n && 0 <= cc < 10 implies #[trigger] cats@[ii][cc]
                        == total_category(parts@.take(j as int), ii, cc) + (if ii < i + 1 {
                        part.category(ii, cc)
                    } else {
                        0
                    }) by {
                        if ii != i {
                            assert(cats@[ii] == cb[ii]);
                        }
                    }
                }
                i = i + 1;
            }
            j = j + 1;
        }
        proof {
            assert(parts@.take(parts@.len() as int) =~= parts@);
            assert forall|q: int| 0 <= q < n * n implies #[trigger] total_win(parts@, q) <= u32::MAX by {
                assert(wins@[q] == total_win(parts@, q));
            }
            assert forall|i: int, c: int| 0 <= i < n && 0 <= c < 10 implies #[trigger] total_category(
                parts@,
                i,
                c,
            ) <= u32::MAX by {
                assert(cats@[i][c] == total_category(parts@, i, c));
            }
        }
        Some(SimTally { players: n, wins, categories: cats })
    }
}

/// Over the first `m` parts: the sum of player `i`'s category counts up to `cc`.
pub open spec fn parts_row(parts: Seq<SimTally>, i: int, cc: int, m: int) -> int
    decreases m,
{
    if m <= 0 {
        0
    } else {
        parts_row(parts, i, cc, m - 1) + row_sum(parts[m - 1].categories@[i]@, cc)
    }
}

/// Over the first `m` parts: the sum of flat win entry `q`.
pub open spec fn parts_win(parts: Seq<SimTally>, q: int, m: int) -> int
    decreases m,
{
    if m <= 0 {
        0
    } else {
        parts_win(parts, q, m - 1) + parts[m - 1].wins@[q]
    }
}

/// Over the first `m` parts: the sum of player `i`'s count of category `c`.
pub open spec fn parts_cat(parts: Seq<SimTally>, i: int, c: int, m: int) -> int
    decreases m,
{
    if m <= 0 {
        0
    } else {
        parts_cat(parts, i, c, m - 1) + parts[m - 1].category(i, c)
    }
}

/// Over the first `m` parts: the sum of column `k` over the first `mm` players.
pub open spec fn parts_col(parts: Seq<SimTally>, n: int, k: int, mm: int, m: int) -> int
    decreases m,
{
    if m <= 0 {
        0
    } else {
        parts_col(parts, n, k, mm, m - 1) + column_sum(parts[m - 1].wins@, n, k, mm)
    }
}

/// Over the first `m` parts: the sum of column `k` divided by its number of winners.
pub open spec fn parts_col_share(parts: Seq<SimTally>, n: int, k: int, m: int) -> int
    decreases m,
{
    if m <= 0 {
        0
    } else {
        parts_col_share(parts, n, k, m - 1) + column_sum(parts[m - 1].wins@, n, k, n) / (k + 1)
    }
}

/// Over the first `m` parts: the win shares of the first `kk` columns.
pub open spec fn parts_shares(parts: Seq<SimTally>, n: int, kk: int, m: int) -> int
    decreases m,
{
    if m <= 0 {
        0
    } else {
        parts_shares(parts, n, kk, m - 1) + shares_sum(parts[m - 1].wins@, n, kk)
    }
}

/// The parts' sums of one flat win entry, part by part.
proof fn lemma_total_win_parts(parts: Seq<SimTally>, q: int)
    ensures
        total_win(parts, q) == parts_win(parts, q, parts.len() as int),
    decreases parts.len(),
{
    if parts.len() > 0 {
        let w = parts.drop_last();
        lemma_total_win_parts(w, q);
        lemma_parts_win_prefix(parts, q, w.len() as int);
    }
}

proof fn lemma_parts_win_prefix(parts: Seq<SimTally>, q: int, m: int)
    requires
        0 <= m < parts.len(),
    ensures
        parts_win(parts.drop_last(), q, m) == parts_win(parts, q, m),
    decreases m,
{
    if m > 0 {
        lemma_parts_win_prefix(parts, q, m - 1);
    }
}

/// The parts' sums of one category count, part by part.
proof fn lemma_total_category_parts(parts: Seq<SimTally>, i: int, c: int)
    ensures
        total_category(parts, i, c) == parts_cat(parts, i, c, parts.len() as int),
    decreases parts.len(),
{
    if parts.len() > 0 {
        let w = parts.drop_last();
        lemma_total_category_parts(w, i, c);
        lemma_parts_cat_prefix(parts, i, c, w.len() as int);
    }
}

proof fn lemma_parts_cat_prefix(parts: Seq<SimTally>, i: int, c: int, m: int)
    requires
        0 <= m < parts.len(),
    ensures
        parts_cat(parts.drop_last(), i, c, m) == parts_cat(parts, i, c, m),
    decreases m,
{
    if m > 0 {
        lemma_parts_cat_prefix(parts, i, c, m - 1);
    }
}

/// Empty sums over the parts are zero.
proof fn lemma_parts_zero(parts: Seq<SimTally>, i: int, n: int, k: int, m: int)
    ensures
        parts_row(parts, i, 0, m) == 0,
        parts_col(parts, n, k, 0, m) == 0,
        parts_shares(parts, n, 0, m) == 0,
    decreases m,
{
    if m > 0 {
        lemma_parts_zero(parts, i, n, k, m - 1);
    }
}

/// Row sums of the parts grow entry by entry.
proof fn lemma_parts_row_step(parts: Seq<SimTally>, i: int, cc: int, m: int)
    requires
        cc > 0,
    ensures
        parts_row(parts, i, cc, m) == parts_row(parts, i, cc - 1, m) + parts_cat(parts, i, cc - 1, m),
    decreases m,
{
    if m > 0 {
        lemma_parts_row_step(parts, i, cc, m - 1);
    }
}

/// A merged row sums to the parts' row sums.
proof fn lemma_merged_row(parts: Seq<SimTally>, m: SimTally, i: int, cc: int)
    requires
        0 <= cc <= 10,
        forall|c: int| 0 <= c < 10 ==> #[trigger] m.category(i, c) == total_category(parts, i, c),
    ensures
        row_sum(m.categories@[i]@, cc) == parts_row(parts, i, cc, parts.len() as int),
    decreases cc,
{
    if cc == 0 {
        lemma_parts_zero(parts, i, 0, 0, parts.len() as int);
    } else {
        lemma_merged_row(parts, m, i, cc - 1);
        lemma_total_category_parts(parts, i, cc - 1);
        lemma_parts_row_step(parts, i, cc, parts.len() as int);
        assert(m.category(i, cc - 1) == m.categories@[i]@[cc - 1]);
    }
}

/// Column sums of the parts grow player by player.
proof fn lemma_parts_col_step(parts: Seq<SimTally>, n: int, k: int, mm: int, m: int)
    requires
        mm > 0,
    ensures
        parts_col(parts, n, k, mm, m) == parts_col(parts, n, k, mm - 1, m) + parts_win(
            parts,
            (mm - 1) * n + k,
            m,
        ),
    decreases m,
{
    if m > 0 {
        lemma_parts_col_step(parts, n, k, mm, m - 1);
    }
}

/// A merged column sums to the parts' column sums.
proof fn lemma_merged_column(parts: Seq<SimTally>, m: SimTally, n: int, k: int, mm: int)
    requires
        0 <= mm <= n,
        0 <= k < n,
        forall|q: int| 0 <= q < n * n ==> #[trigger] m.wins@[q] == total_win(parts, q),
    ensures
        column_sum(m.wins@, n, k, mm) == parts_col(parts, n, k, mm, parts.len() as int),
    decreases mm,
{
    if mm == 0 {
        lemma_parts_zero(parts, 0, n, k, parts.len() as int);
    } else {
        lemma_merged_column(parts, m, n, k, mm - 1);
        let q = (mm - 1) * n + k;
        assert(0 <= q < n * n) by (nonlinear_arith)
            requires
                0 <= mm - 1 < n,
                0 <= k < n,
                q == (mm - 1) * n + k,
        ;
        lemma_total_win_parts(parts, q);
        lemma_parts_col_step(parts, n, k, mm, parts.len() as int);
    }
}

/// A sum of multiples of `d` is a multiple of `d`, and divides term by term.
proof fn lemma_parts_col_div(parts: Seq<SimTally>, n: int, k: int, m: int)
    requires
        0 <= k,
        0 <= m <= parts.len(),
        forall|j: int| 0 <= j < m ==> #[trigger] column_sum(parts[j].wins@, n, k, n) % (k + 1) == 0,
    ensures
        parts_col(parts, n, k, n, m) % (k + 1) == 0,
        parts_col(parts, n, k, n, m) / (k + 1) == parts_col_share(parts, n, k, m),
    decreases m,
{
    if m > 0 {
        lemma_parts_col_div(parts, n, k, m - 1);
        let a = parts_col(parts, n, k, n, m - 1);
        let b = column_sum(parts[m - 1].wins@, n, k, n);
        let d = k + 1;
        vstd::arithmetic::div_mod::lemma_fundamental_div_mod(a, d);
        vstd::arithmetic::div_mod::lemma_fundamental_div_mod(b, d);
        let x = a / d;
        let y = b / d;
        assert(a + b == d * (x + y)) by (nonlinear_arith)
            requires
                a == d * x,
                b == d * y,
        ;
        vstd::arithmetic::div_mod::lemma_mod_multiples_basic(x + y, d);
        vstd::arithmetic::div_mod::lemma_div_multiples_vanish(x + y, d);
        assert((x + y) * d == d * (x + y)) by (nonlinear_arith);
    }
}

/// Win shares of the parts grow column by column.
proof fn lemma_parts_shares_step(parts: Seq<SimTally>, n: int, kk: int, m: int)
    requires
        kk > 0,
    ensures
        parts_shares(parts, n, kk, m) == parts_shares(parts, n, kk - 1, m) + parts_col_share(
            parts,
            n,
            kk - 1,
            m,
        ),
    decreases m,
{
    if m > 0 {
        lemma_parts_shares_step(parts, n, kk, m - 1);
    }
}

/// The merged win shares add up the parts' win shares.
proof fn lemma_merged_shares(parts: Seq<SimTally>, m: SimTally, n: int, kk: int)
    requires
        0 <= kk <= n,
        forall|q: int| 0 <= q < n * n ==> #[trigger] m.wins@[q] == total_win(parts, q),
        forall|j: int, k: int|
            0 <= j < parts.len() && 0 <= k < n ==> #[trigger] column_sum(parts[j].wins@, n, k, n) % (k
                + 1) == 0,
    ensures
        shares_sum(m.wins@, n, kk) == parts_shares(parts, n, kk, parts.len() as int),
        forall|k: int| 0 <= k < kk ==> #[trigger] column_sum(m.wins@, n, k, n) % (k + 1) == 0,
    decreases kk,
{
    if kk == 0 {
        lemma_parts_zero(parts, 0, n, 0, parts.len() as int);
    } else {
        let k = kk - 1;
        lemma_merged_shares(parts, m, n, k);
        lemma_merged_column(parts, m, n, k, n);
        lemma_parts_col_div(parts, n, k, parts.len() as int);
        lemma_parts_shares_step(parts, n, kk, parts.len() as int);
    }
}

/// Sums over the parts of per-part deal counts.
proof fn lemma_parts_deals(parts: Seq<SimTally>, deals: Seq<int>, n: int, i: int, m: int)
    requires
        0 <= m <= parts.len(),
        parts.len() == deals.len(),
        forall|j: int| 0 <= j < parts.len() ==> (#[trigger] parts[j]).players == n && parts[j].balanced(deals[j]),
    ensures
        0 <= i < n ==> parts_row(parts, i, 10, m) == int_sum(deals, m),
        n > 0 ==> parts_shares(parts, n, n, m) == int_sum(deals, m),
    decreases m,
{
    if m > 0 {
        lemma_parts_deals(parts, deals, n, i, m - 1);
        assert(parts[m - 1].balanced(deals[m - 1]));
    }
}

/// Merging tallies each balanced for its own deals gives a tally balanced for all the deals:
/// every player still has one category per deal, and the win shares of all players still add
/// up to the number of deals.
pub proof fn lemma_merge_balanced(parts: Seq<SimTally>, deals: Seq<int>, m: SimTally)
    requires
        parts.len() == deals.len(),
        forall|j: int|
            0 <= j < parts.len() ==> (#[trigger] parts[j]).players == m.players && parts[j].shaped()
                && parts[j].balanced(deals[j]),
        m.shaped(),
        forall|q: int| 0 <= q < m.players * m.players ==> #[trigger] m.wins@[q] == total_win(parts, q),
        forall|i: int, c: int|
            0 <= i < m.players && 0 <= c < 10 ==> #[trigger] m.category(i, c) == total_category(
                parts,
                i,
                c,
            ),
    ensures
        m.balanced(int_sum(deals, deals.len() as int)),
{
    let n = m.players as int;
    let total = int_sum(deals, deals.len() as int);
    assert forall|i: int| 0 <= i < n implies #[trigger] row_sum(m.categories@[i]@, 10) == total by {
        lemma_merged_row(parts, m, i, 10);
        lemma_parts_deals(parts, deals, n, i, parts.len() as int);
    }
    assert forall|j: int, k: int|
        0 <= j < parts.len() && 0 <= k < n implies #[trigger] column_sum(parts[j].wins@, n, k, n) % (k
        + 1) == 0 by {
        assert(parts[j].balanced(deals[j]));
    }
    lemma_merged_shares(parts, m, n, n);
    lemma_parts_deals(parts, deals, n, 0, parts.len() as int);
}

/// The workers' deal counts, worker by worker.
pub open spec fn worker_deals(iterations: u32, workers: int) -> Seq<int> {
    Seq::new(workers as nat, |tid: int| chunk_spec(iterations, workers, tid))
}

proof fn lemma_worker_deals_sum(iterations: u32, workers: int, m: int)
    requires
        0 <= m <= workers,
    ensures
        int_sum(worker_deals(iterations, workers), m) == chunk_total(iterations, workers, m),
    decreases m,
{
    if m > 0 {
        lemma_worker_deals_sum(iterations, workers, m - 1);
    }
}

/// When each worker's tally is balanced for its share of the deals, the merged tally is
/// balanced for all the deals of the condition: every player has one category per deal, and
/// the win shares add up to the number of deals.
pub proof fn lemma_workers_balanced(parts: Seq<SimTally>, m: SimTally, iterations: u32, workers: int)
    requires
        1 <= workers,
        parts.len() == workers,
        forall|tid: int|
            0 <= tid < workers ==> (#[trigger] parts[tid]).players == m.players && parts[tid].shaped()
                && parts[tid].balanced(chunk_spec(iterations, workers, tid)),
        m.shaped(),
        forall|q: int| 0 <= q < m.players * m.players ==> #[trigger] m.wins@[q] == total_win(parts, q),
        forall|i: int, c: int|
            0 <= i < m.players && 0 <= c < 10 ==> #[trigger] m.category(i, c) == total_category(
                parts,
                i,
                c,
            ),
    ensures
        m.balanced(iterations as int),
{
    let deals = worker_deals(iterations, workers);
    assert forall|j: int| 0 <= j < parts.len() implies (#[trigger] parts[j]).players == m.players
        && parts[j].shaped() && parts[j].balanced(deals[j]) by {
        assert(deals[j] == chunk_spec(iterations, workers, j));
    }
    lemma_merge_balanced(parts, deals, m);
    lemma_worker_deals_sum(iterations, workers, workers);
    lemma_chunks_cover(iterations, workers);
}

/// With every card given, the counts of the first `m` workers are their deals times what the
/// one possible deal gives.
proof fn lemma_known_prefix<'a>(
    parts: Seq<SimTally>,
    sc: Scorer<'a>,
    kind: Shuffle,
    s: Seq<Option<Card>>,
    seeds: Seq<u64>,
    iterations: u32,
    workers: int,
    i: int,
    k: int,
    m: int,
)
    requires
        none_count(s) == 0,
        s.len() >= 5,
        1 <= workers,
        parts.len() == workers,
        seeds.len() == workers,
        0 <= m <= workers,
        0 <= i < players_of(s),
        0 <= k,
        forall|tid: int|
            0 <= tid < workers ==> (#[trigger] parts[tid]).counts(
                sc,
                kind,
                s,
                seeds[tid],
                chunk_spec(iterations, workers, tid) as nat,
            ),
    ensures
        k < players_of(s) ==> total_win(parts.take(m), i * players_of(s) + k) == chunk_total(iterations, workers, m) * (
        if wins_with(fixed_scores(sc, s), i, k) {
            1int
        } else {
            0int
        }),
        k < 10 ==> total_category(parts.take(m), i, k) == chunk_total(iterations, workers, m) * (if category_of(
            fixed_scores(sc, s)[i],
        ) == k {
            1int
        } else {
            0int
        }),
    decreases m,
{
    if m > 0 {
        lemma_known_prefix(parts, sc, kind, s, seeds, iterations, workers, i, k, m - 1);
        assert(parts.take(m).drop_last() =~= parts.take(m - 1));
        assert(parts.take(m).last() == parts[m - 1]);
        let c = chunk_spec(iterations, workers, m - 1);
        assert(c >= 0) by (nonlinear_arith)
            requires
                1 <= workers,
                c == iterations as int / workers + (if m - 1 < iterations as int % workers {
                    1int
                } else {
                    0int
                }),
        ;
        if k < players_of(s) {
            assert(parts[m - 1].win(i, k) == win_count(sc, kind, s, seeds[m - 1], c as nat, i, k));
        }
        if k < 10 {
            assert(parts[m - 1].category(i, k) == category_count(sc, kind, s, seeds[m - 1], c as nat, i, k));
        }
        lemma_known_counts(sc, kind, s, seeds[m - 1], c as nat, i, k);
    }
}

/// With every card given, the workers' counts added up are the counts of one run of all the
/// deals, whatever the number of workers, their seeds and the single run's seed and shuffle.
pub proof fn lemma_known_workers<'a>(
    parts: Seq<SimTally>,
    sc: Scorer<'a>,
    kind: Shuffle,
    s: Seq<Option<Card>>,
    seeds: Seq<u64>,
    iterations: u32,
    workers: int,
    kind1: Shuffle,
    x1: u64,
    i: int,
    k: int,
)
    requires
        none_count(s) == 0,
        s.len() >= 5,
        1 <= workers,
        parts.len() == workers,
        seeds.len() == workers,
        0 <= i < players_of(s),
        0 <= k,
        forall|tid: int|
            0 <= tid < workers ==> (#[trigger] parts[tid]).counts(
                sc,
                kind,
                s,
                seeds[tid],
                chunk_spec(iterations, workers, tid) as nat,
            ),
    ensures
        k < players_of(s) ==> total_win(parts, i * players_of(s) + k) == win_count(sc, kind1, s, x1, iterations as nat, i, k),
        k < 10 ==> total_category(parts, i, k) == category_count(sc, kind1, s, x1, iterations as nat, i, k),
{
    lemma_known_prefix(parts, sc, kind, s, seeds, iterations, workers, i, k, workers);
    assert(parts.take(workers) =~= parts);
    lemma_chunks_cover(iterations, workers);
    lemma_known_counts(sc, kind1, s, x1, iterations as nat, i, k);
}

/// With every card given, the tally merged from the workers' tallies, whatever their number
/// and seeds, holds the counts of one run of all the deals with any seed and shuffle.
pub proof fn lemma_known_merge<'a>(
    parts: Seq<SimTally>,
    m: SimTally,
    sc: Scorer<'a>,
    kind: Shuffle,
    s: Seq<Option<Card>>,
    seeds: Seq<u64>,
    iterations: u32,
    workers: int,
    kind1: Shuffle,
    x1: u64,
)
    requires
        none_count(s) == 0,
        s.len() >= 5,
        1 <= workers,
        parts.len() == workers,
        seeds.len() == workers,
        forall|tid: int|
            0 <= tid < workers ==> (#[trigger] parts[tid]).counts(
                sc,
                kind,
                s,
                seeds[tid],
                chunk_spec(iterations, workers, tid) as nat,
            ),
        m.players == players_of(s),
        m.shaped(),
        forall|q: int| 0 <= q < m.players * m.players ==> #[trigger] m.wins@[q] == total_win(parts, q),
        forall|i: int, c: int|
            0 <= i < m.players && 0 <= c < 10 ==> #[trigger] m.category(i, c) == total_category(
                parts,
                i,
                c,
            ),
    ensures
        m.counts(sc, kind1, s, x1, iterations as nat),
{
    let n = players_of(s);
    assert forall|i: int, k: int| 0 <= i < m.players && 0 <= k < m.players implies #[trigger] m.win(i, k)
        == win_count(sc, kind1, s, x1, iterations as nat, i, k) by {
        super::sim::lemma_cell(n, i, k);
        lemma_known_workers(parts, sc, kind, s, seeds, iterations, workers, kind1, x1, i, k);
    }
    assert forall|i: int, c: int| 0 <= i < m.players && 0 <= c < 10 implies #[trigger] m.category(i, c)
        == category_count(sc, kind1, s, x1, iterations as nat, i, c) by {
        lemma_known_workers(parts, sc, kind, s, seeds, iterations, workers, kind1, x1, i, c);
    }
}

} // verus!
