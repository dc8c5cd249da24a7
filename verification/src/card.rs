//! Cards: ranks, suits and their text labels.

use vstd::prelude::*;
use vstd::string::StringExecFns;

verus! {

/// The thirteen ranks, weakest first.
#[derive(Clone, Copy, PartialEq, Eq, Structural, Hash, Debug)]
pub enum Rank {
    Two,
    Three,
    Four,
    Five,
    Six,
    Seven,
    Eight,
    Nine,
    Ten,
    Jack,
    Queen,
    King,
    Ace,
}

/// The four suits, in deck order.
#[derive(Clone, Copy, PartialEq, Eq, Structural, Hash, Debug)]
pub enum Suit {
    Spades,
    Hearts,
    Diamonds,
    Clubs,
}

/// A playing card.
#[derive(Clone, Copy, PartialEq, Eq, Structural, Hash, Debug)]
pub struct Card {
    pub rank: Rank,
    pub suit: Suit,
}

impl Rank {
    /// The thirteen ranks, Two first and Ace last.
    pub const ALL: [Rank; 13] = [
        Rank::Two,
        Rank::Three,
        Rank::Four,
        Rank::Five,
        Rank::Six,
        Rank::Seven,
        Rank::Eight,
        Rank::Nine,
        Rank::Ten,
        Rank::Jack,
        Rank::Queen,
        Rank::King,
        Rank::Ace,
    ];

    /// Position of the rank among the thirteen ranks: Two is 0, Ace is 12.
    pub open spec fn index(self) -> int {
        match self {
            Rank::Two => 0,
            Rank::Three => 1,
            Rank::Four => 2,
            Rank::Five => 3,
            Rank::Six => 4,
            Rank::Seven => 5,
            Rank::Eight => 6,
            Rank::Nine => 7,
            Rank::Ten => 8,
            Rank::Jack => 9,
            Rank::Queen => 10,
            Rank::King => 11,
            Rank::Ace => 12,
        }
    }

    /// Strength of the rank on the usual scale: Two is 2, Ace is 14.
    pub open spec fn value(self) -> int {
        self.index() + 2
    }

    /// The rank at position `i` (0 for Two, 12 for Ace).
    pub open spec fn from_index(i: int) -> Rank {
        if i <= 0 {
            Rank::Two
        } else if i == 1 {
            Rank::Three
        } else if i == 2 {
            Rank::Four
        } else if i == 3 {
            Rank::Five
        } else if i == 4 {
            Rank::Six
        } else if i == 5 {
            Rank::Seven
        } else if i == 6 {
            Rank::Eight
        } else if i == 7 {
            Rank::Nine
        } else if i == 8 {
            Rank::Ten
        } else if i == 9 {
            Rank::Jack
        } else if i == 10 {
            Rank::Queen
        } else if i == 11 {
            Rank::King
        } else {
            Rank::Ace
        }
    }

    /// One-character label of the rank.
    pub open spec fn label_spec(self) -> Seq<char> {
        match self {
            Rank::Two => seq!['2'],
            Rank::Three => seq!['3'],
            Rank::Four => seq!['4'],
            Rank::Five => seq!['5'],
            Rank::Six => seq!['6'],
            Rank::Seven => seq!['7'],
            Rank::Eight => seq!['8'],
            Rank::Nine => seq!['9'],
            Rank::Ten => seq!['T'],
            Rank::Jack => seq!['J'],
            Rank::Queen => seq!['Q'],
            Rank::King => seq!['K'],
            Rank::Ace => seq!['A'],
        }
    }

    /// The label shown for the rank: digits for Two to Nine, then T, J, Q, K, A.
    pub fn label(self) -> (s: &'static str)
        ensures
            s@ == self.label_spec(),
    {
        match self {
            Rank::Two => {
                proof {
                    reveal_strlit("2");
                }
                "2"
            },
            Rank::Three => {
                proof {
                    reveal_strlit("3");
                }
                "3"
            },
            Rank::Four => {
                proof {
                    reveal_strlit("4");
                }
                "4"
            },
            Rank::Five => {
                proof {
                    reveal_strlit("5");
                }
                "5"
            },
            Rank::Six => {
                proof {
                    reveal_strlit("6");
                }
                "6"
            },
            Rank::Seven => {
                proof {
                    reveal_strlit("7");
                }
                "7"
            },
            Rank::Eight => {
                proof {
                    reveal_strlit("8");
                }
                "8"
            },
            Rank::Nine => {
                proof {
                    reveal_strlit("9");
                }
                "9"
            },
            Rank::Ten => {
                proof {
                    reveal_strlit("T");
                }
                "T"
            },
            Rank::Jack => {
                proof {
                    reveal_strlit("J");
                }
                "J"
            },
            Rank::Queen => {
                proof {
                    reveal_strlit("Q");
                }
                "Q"
            },
            Rank::King => {
                proof {
                    reveal_strlit("K");
                }
                "K"
            },
            Rank::Ace => {
                proof {
                    reveal_strlit("A");
                }
                "A"
            },
        }
    }

    /// Strength of the rank as a byte: Two is 2, Ace is 14.
    pub fn idx(self) -> (v: u8)
        ensures
            v == self.value(),
    {
        match self {
            Rank::Two => 2,
            Rank::Three => 3,
            Rank::Four => 4,
            Rank::Five => 5,
            Rank::Six => 6,
            Rank::Seven => 7,
            Rank::Eight => 8,
            Rank::Nine => 9,
            Rank::Ten => 10,
            Rank::Jack => 11,
            Rank::Queen => 12,
            Rank::King => 13,
            Rank::Ace => 14,
        }
    }

    /// The rank at position `i`, Two at 0 and Ace at 12.
    pub fn at(i: usize) -> (r: Rank)
        requires
            i < 13,
        ensures
            r == Rank::from_index(i as int),
            r.index() == i,
    {
        if i == 0 {
            Rank::Two
        } else if i == 1 {
            Rank::Three
        } else if i == 2 {
            Rank::Four
        } else if i == 3 {
            Rank::Five
        } else if i == 4 {
            Rank::Six
        } else if i == 5 {
            Rank::Seven
        } else if i == 6 {
            Rank::Eight
        } else if i == 7 {
            Rank::Nine
        } else if i == 8 {
            Rank::Ten
        } else if i == 9 {
            Rank::Jack
        } else if i == 10 {
            Rank::Queen
        } else if i == 11 {
            Rank::King
        } else {
            Rank::Ace
        }
    }
}

impl Suit {
    /// The four suits in deck order.
    pub const ALL: [Suit; 4] = [Suit::Spades, Suit::Hearts, Suit::Diamonds, Suit::Clubs];

    /// Position of the suit in deck order: Spades 0, Hearts 1, Diamonds 2, Clubs 3.
    pub open spec fn index(self) -> int {
        match self {
            Suit::Spades => 0,
            Suit::Hearts => 1,
            Suit::Diamonds => 2,
            Suit::Clubs => 3,
        }
    }

    /// The suit at position `i` in deck order.
    pub open spec fn from_index(i: int) -> Suit {
        if i <= 0 {
            Suit::Spades
        } else if i == 1 {
            Suit::Hearts
        } else if i == 2 {
            Suit::Diamonds
        } else {
            Suit::Clubs
        }
    }

    /// The suit symbol.
    pub open spec fn symbol_spec(self) -> Seq<char> {
        match self {
            Suit::Spades => seq!['\u{2660}'],
            Suit::Hearts => seq!['\u{2665}'],
            Suit::Diamonds => seq!['\u{2666}'],
            Suit::Clubs => seq!['\u{2663}'],
        }
    }

    /// The symbol shown for the suit.
    pub fn symbol(self) -> (s: &'static str)
        ensures
            s@ == self.symbol_spec(),
    {
        match self {
            Suit::Spades => {
                proof {
                    reveal_strlit("\u{2660}");
                }
                "\u{2660}"
            },
            Suit::Hearts => {
                proof {
                    reveal_strlit("\u{2665}");
                }
                "\u{2665}"
            },
            Suit::Diamonds => {
                proof {
                    reveal_strlit("\u{2666}");
                }
                "\u{2666}"
            },
            Suit::Clubs => {
                proof {
                    reveal_strlit("\u{2663}");
                }
                "\u{2663}"
            },
        }
    }

    /// Whether the suit is drawn in red (hearts and diamonds).
    pub open spec fn is_red_spec(self) -> bool {
        self == Suit::Hearts || self == Suit::Diamonds
    }

    /// The colour in which the suit is drawn, as red, green and blue bytes:
    /// hearts and diamonds in red (220, 50, 50), spades and clubs near black (20, 20, 20).
    pub fn color_rgb(self) -> (c: (u8, u8, u8))
        ensures
            c == (if self.is_red_spec() { (220u8, 50u8, 50u8) } else { (20u8, 20u8, 20u8) }),
    {
        match self {
            Suit::Hearts | Suit::Diamonds => (220, 50, 50),
            Suit::Spades | Suit::Clubs => (20, 20, 20),
        }
    }

    /// Position of the suit in deck order.
    pub fn idx(self) -> (v: usize)
        ensures
            v == self.index(),
    {
        match self {
            Suit::Spades => 0,
            Suit::Hearts => 1,
            Suit::Diamonds => 2,
            Suit::Clubs => 3,
        }
    }

    /// The suit at position `i` in deck order.
    pub fn at(i: usize) -> (s: Suit)
        requires
            i < 4,
        ensures
            s == Suit::from_index(i as int),
            s.index() == i,
    {
        if i == 0 {
            Suit::Spades
        } else if i == 1 {
            Suit::Hearts
        } else if i == 2 {
            Suit::Diamonds
        } else {
            Suit::Clubs
        }
    }
}

/// Cards and their deck positions correspond one to one.
pub proof fn lemma_card_id(c: Card)
    ensures
        0 <= c.id() < 52,
        Card::from_id(c.id()) == c,
{
    assert(Rank::from_index(c.rank.index()) == c.rank);
    assert(Suit::from_index(c.suit.index()) == c.suit);
    assert((c.suit.index() * 13 + c.rank.index()) % 13 == c.rank.index());
    assert((c.suit.index() * 13 + c.rank.index()) / 13 == c.suit.index());
}

/// Deck positions and cards correspond one to one.
pub proof fn lemma_id_card(i: int)
    requires
        0 <= i < 52,
    ensures
        Card::from_id(i).id() == i,
{
    assert(Rank::from_index(i % 13).index() == i % 13);
    assert(Suit::from_index(i / 13).index() == i / 13);
}

impl Card {
    /// Position of the card in a fresh deck: suits in deck order, ranks from Two to Ace.
    pub open spec fn id(self) -> int {
        self.suit.index() * 13 + self.rank.index()
    }

    /// The card at position `i` of a fresh deck.
    pub open spec fn from_id(i: int) -> Card {
        Card { rank: Rank::from_index(i % 13), suit: Suit::from_index(i / 13) }
    }

    /// The label of the card: rank label followed by suit symbol, such as "A♠".
    pub fn label(self) -> (s: String)
        ensures
            s@ == self.rank.label_spec() + self.suit.symbol_spec(),
    {
        let r = String::from_str(self.rank.label());
        r.concat(self.suit.symbol())
    }

    /// The card at position `id` of a fresh deck.
    pub fn at(id: usize) -> (c: Card)
        requires
            id < 52,
        ensures
            c == Card::from_id(id as int),
            c.id() == id,
    {
        Card { rank: Rank::at(id % 13), suit: Suit::at(id / 13) }
    }

    /// Position of the card in a fresh deck.
    pub fn id_exec(self) -> (v: usize)
        ensures
            v == self.id(),
            v < 52,
    {
        self.suit.idx() * 13 + (self.rank.idx() - 2) as usize
    }
}

/// A rank's label is one character; from Two to Nine it is the decimal digit of the rank's
/// value.
pub proof fn lemma_rank_label_digit(r: Rank)
    ensures
        r.label_spec().len() == 1,
        r.value() <= 9 ==> r.label_spec()[0] == (r.value() + 48) as char,
{
}

/// Different ranks get different labels, and different suits different symbols.
pub proof fn lemma_labels_distinct(r1: Rank, r2: Rank, s1: Suit, s2: Suit)
    ensures
        r1 != r2 ==> r1.label_spec() != r2.label_spec(),
        s1 != s2 ==> s1.symbol_spec() != s2.symbol_spec(),
{
    if r1 != r2 && r1.label_spec() == r2.label_spec() {
        assert(r1.label_spec()[0] == r2.label_spec()[0]);
    }
    if s1 != s2 && s1.symbol_spec() == s2.symbol_spec() {
        assert(s1.symbol_spec()[0] == s2.symbol_spec()[0]);
    }
}

/// A card's label is its rank's label followed by its suit's symbol, so different cards get
/// different labels.
pub proof fn lemma_card_labels_distinct(a: Card, b: Card)
    requires
        a != b,
    ensures
        a.rank.label_spec() + a.suit.symbol_spec() != b.rank.label_spec() + b.suit.symbol_spec(),
{
    lemma_rank_label_digit(a.rank);
    lemma_rank_label_digit(b.rank);
    lemma_labels_distinct(a.rank, b.rank, a.suit, b.suit);
    let la = a.rank.label_spec() + a.suit.symbol_spec();
    let lb = b.rank.label_spec() + b.suit.symbol_spec();
    if la == lb {
        assert(la[0] == lb[0]);
        assert(a.rank.label_spec() =~= seq![la[0]]);
        assert(b.rank.label_spec() =~= seq![lb[0]]);
        assert(a.suit.symbol_spec().len() == 1 && b.suit.symbol_spec().len() == 1);
        assert(la[1] == lb[1]);
        assert(a.suit.symbol_spec() =~= seq![la[1]]);
        assert(b.suit.symbol_spec() =~= seq![lb[1]]);
    }
}

} // verus!
