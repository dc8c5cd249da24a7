# poker

A Texas Hold'em equity calculator: given each player's hole cards and the board, any of them
possibly unknown, it deals the unknown cards many times at random and counts how often each
player wins (ties split evenly) and with which hand category.

The library in `src/` is verified with Verus:

- `card` — ranks, suits, cards, their labels and deck positions.
- `eval` — hand codes (`pack`: category, then five tiebreak ranks, one nibble each) and the
  evaluators:
  - `naive` — hand values (category and tiebreak list), best of the five-card subsets;
  - `fast` — five-card codes by sorting, best of the twenty-one subsets of seven cards;
  - `sort_free` — the same from rank buckets, without sorting;
  - `eval7` — seven cards read directly from the rank and suit counts;
  - `lut` — the same from two lookup tables (flush masks, and an open-addressing table of
    count patterns keyed in base 5);
  - `fisher`, `lut_par` — the same evaluators with a partial shuffle (Lemire's draw), and
    split over workers; with every card given, counts depend on neither seeds nor the split;
  - `rng`, `deal`, `sim` — the XorShift generator and shuffles, dealing from the residual
    deck, and the simulation loop with its counts;
  - `score`, `agree`, `agree_buckets`, `agree_seven` — the scorers' specifications and where
    the evaluators provably agree; the direct seven-card reading (and the lookup tables) give
    the best of the twenty-one five-card codes of seven distinct cards.
- `table` — the table being set up in the window: slots, picking cards, resetting.

`app/` holds the window (eframe/egui), the clock seed, the lookup-table cache, the rayon
workers, the conversion of counts into frequencies, and `poker bench` to time the evaluators.
