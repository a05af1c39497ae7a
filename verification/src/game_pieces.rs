//! The card vocabulary: suits, ranks, cards that know whether they are
//! trump, and the ordering rule between any two cards.

use rand::seq::SliceRandom;
use vstd::prelude::*;

verus! {

/// One of the four French suits. Suits carry no order, only equality,
/// and a display glyph.
#[derive(PartialEq, Eq, Structural, Clone, Copy, Debug, Hash)]
pub enum Suit {
    HEART,
    CLUB,
    DIAMOND,
    SPADE,
}

/// Position of a suit in the canonical deck layout.
pub open spec fn suit_idx(s: Suit) -> int {
    match s {
        Suit::HEART => 0,
        Suit::CLUB => 1,
        Suit::DIAMOND => 2,
        Suit::SPADE => 3,
    }
}

impl Suit {
    /// The display glyph of this suit.
    pub open spec fn glyph(self) -> char {
        match self {
            Suit::HEART => '\u{2665}',
            Suit::CLUB => '\u{2663}',
            Suit::DIAMOND => '\u{2666}',
            Suit::SPADE => '\u{2660}',
        }
    }

    /// Render this suit as its one-character glyph.
    pub fn symbol(&self) -> (c: char)
        ensures
            c == self.glyph(),
    {
        match *self {
            Suit::HEART => '\u{2665}',
            Suit::CLUB => '\u{2663}',
            Suit::DIAMOND => '\u{2666}',
            Suit::SPADE => '\u{2660}',
        }
    }
}

/// The thirteen ranks, Two through Ace. Their strict total order is
/// given by `rank_idx`: Two lowest, Ace highest.
#[derive(PartialEq, Eq, Structural, Clone, Copy, Debug, Hash)]
pub enum Value {
    TWO,
    THREE,
    FOUR,
    FIVE,
    SIX,
    SEVEN,
    EIGHT,
    NINE,
    TEN,
    JACK,
    QUEEN,
    KING,
    ACE,
}

/// Position of a rank in the order Two < Three < ... < King < Ace:
/// Two is 0, Ace is 12.
pub open spec fn rank_idx(v: Value) -> int {
    match v {
        Value::TWO => 0,
        Value::THREE => 1,
        Value::FOUR => 2,
        Value::FIVE => 3,
        Value::SIX => 4,
        Value::SEVEN => 5,
        Value::EIGHT => 6,
        Value::NINE => 7,
        Value::TEN => 8,
        Value::JACK => 9,
        Value::QUEEN => 10,
        Value::KING => 11,
        Value::ACE => 12,
    }
}

impl Value {
    /// The display glyph of this rank.
    pub open spec fn glyph(self) -> char {
        match self {
            Value::TWO => '2',
            Value::THREE => '3',
            Value::FOUR => '4',
            Value::FIVE => '5',
            Value::SIX => '6',
            Value::SEVEN => '7',
            Value::EIGHT => '8',
            Value::NINE => '9',
            Value::TEN => 'T',
            Value::JACK => 'J',
            Value::QUEEN => 'Q',
            Value::KING => 'K',
            Value::ACE => 'A',
        }
    }

    /// Render this rank as its one-character glyph.
    pub fn symbol(&self) -> (c: char)
        ensures
            c == self.glyph(),
    {
        match *self {
            Value::TWO => '2',
            Value::THREE => '3',
            Value::FOUR => '4',
            Value::FIVE => '5',
            Value::SIX => '6',
            Value::SEVEN => '7',
            Value::EIGHT => '8',
            Value::NINE => '9',
            Value::TEN => 'T',
            Value::JACK => 'J',
            Value::QUEEN => 'Q',
            Value::KING => 'K',
            Value::ACE => 'A',
        }
    }

    /// The position of this rank in the rank order, as a machine integer.
    pub fn rank_index(&self) -> (i: u32)
        ensures
            i == rank_idx(*self),
    {
        match *self {
            Value::TWO => 0,
            Value::THREE => 1,
            Value::FOUR => 2,
            Value::FIVE => 3,
            Value::SIX => 4,
            Value::SEVEN => 5,
            Value::EIGHT => 6,
            Value::NINE => 7,
            Value::TEN => 8,
            Value::JACK => 9,
            Value::QUEEN => 10,
            Value::KING => 11,
            Value::ACE => 12,
        }
    }
}

/// Rank positions are between 0 and 12, and two ranks with the same
/// position are the same rank.
pub proof fn lemma_rank_idx_bijective(a: Value, b: Value)
    ensures
        0 <= rank_idx(a) <= 12,
        rank_idx(a) == rank_idx(b) ==> a == b,
{
}

/// Suit positions are between 0 and 3, and two suits with the same
/// position are the same suit.
pub proof fn lemma_suit_idx_bijective(a: Suit, b: Suit)
    ensures
        0 <= suit_idx(a) <= 3,
        suit_idx(a) == suit_idx(b) ==> a == b,
{
}

/// An immutable card value. The trump flag is set once, when the deck
/// that owns the card fixes its trump suit, and never changes after
/// that.
#[derive(PartialEq, Eq, Structural, Clone, Copy, Debug, Hash)]
pub struct Card {
    pub suit: Suit,
    pub value: Value,
    pub trump: bool,
}

/// The card `c` becomes once `trump_suit` is fixed: its trump flag is
/// raised when its suit matches, and an already-trump card is never
/// downgraded.
pub open spec fn with_trump(c: Card, trump_suit: Suit) -> Card {
    Card { suit: c.suit, value: c.value, trump: c.trump || c.suit == trump_suit }
}

/// The ordering rule between two cards: a trump card beats any
/// non-trump card regardless of rank; two cards of the same trump
/// status compare by rank alone, so equal ranks in different suits tie.
pub open spec fn compare_spec(a: Card, b: Card) -> core::cmp::Ordering {
    if a.trump != b.trump {
        if a.trump {
            core::cmp::Ordering::Greater
        } else {
            core::cmp::Ordering::Less
        }
    } else if rank_idx(a.value) < rank_idx(b.value) {
        core::cmp::Ordering::Less
    } else if rank_idx(a.value) == rank_idx(b.value) {
        core::cmp::Ordering::Equal
    } else {
        core::cmp::Ordering::Greater
    }
}

impl Card {
    /// A new card with the given rank, suit, and trump flag.
    pub fn new(value: Value, suit: Suit, trump: bool) -> (c: Card)
        ensures
            c == (Card { suit, value, trump }),
    {
        Card { suit, value, trump }
    }

    /// The card with its trump flag raised when its suit matches
    /// `trump_suit`; unchanged otherwise. Idempotent, and never
    /// downgrades a trump card.
    pub fn update_trump(self, trump_suit: Suit) -> (c: Card)
        ensures
            c == with_trump(self, trump_suit),
    {
        let mut c = self;
        if c.suit == trump_suit {
            c.trump = true;
        }
        c
    }

    /// Whether this card is a trump card.
    pub fn is_trump(&self) -> (t: bool)
        ensures
            t == self.trump,
    {
        self.trump
    }

    /// The suit of this card.
    pub fn suit(&self) -> (s: Suit)
        ensures
            s == self.suit,
    {
        self.suit
    }

    /// The rank of this card.
    pub fn value(&self) -> (v: Value)
        ensures
            v == self.value,
    {
        self.value
    }

    /// Compare this card with another under the rule of
    /// `compare_spec`.
    pub fn compare(&self, other: &Card) -> (r: core::cmp::Ordering)
        ensures
            r == compare_spec(*self, *other),
    {
        match (self.trump, other.trump) {
            (true, false) => core::cmp::Ordering::Greater,
            (false, true) => core::cmp::Ordering::Less,
            _ => {
                let a = self.value.rank_index();
                let b = other.value.rank_index();
                if a < b {
                    core::cmp::Ordering::Less
                } else if a == b {
                    core::cmp::Ordering::Equal
                } else {
                    core::cmp::Ordering::Greater
                }
            },
        }
    }
}

/// The comparison is consistent: swapping the arguments mirrors the
/// outcome, every pair of cards is ordered, a card ties with itself,
/// and a trump card always beats a non-trump card, whatever the ranks.
pub proof fn lemma_compare_consistent(a: Card, b: Card)
    ensures
        compare_spec(a, b) is Greater <==> compare_spec(b, a) is Less,
        compare_spec(a, b) is Equal <==> compare_spec(b, a) is Equal,
        compare_spec(a, a) is Equal,
        a.trump && !b.trump ==> compare_spec(a, b) is Greater,
{
}

/// The comparison is transitive, both as a strict order and allowing
/// ties, across the whole card set.
pub proof fn lemma_compare_transitive(a: Card, b: Card, c: Card)
    ensures
        compare_spec(a, b) is Less && compare_spec(b, c) is Less ==> compare_spec(a, c) is Less,
        compare_spec(a, b) is Equal && compare_spec(b, c) is Equal ==> compare_spec(a, c) is Equal,
        !(compare_spec(a, b) is Greater) && !(compare_spec(b, c) is Greater) ==> !(compare_spec(
            a,
            c,
        ) is Greater),
{
}

/// Whether some card in `s` has the given rank and suit.
pub open spec fn contains_pair(s: Seq<Card>, v: Value, su: Suit) -> bool {
    exists|i: int| 0 <= i < s.len() && #[trigger] s[i].value == v && s[i].suit == su
}

/// Whether every one of the 52 (rank, suit) pairs occurs in `s`.
pub open spec fn all_pairs_present(s: Seq<Card>) -> bool {
    forall|v: Value, su: Suit| contains_pair(s, v, su)
}

/// Whether no two cards of `s` share a (rank, suit) pair.
pub open spec fn pairs_unique(s: Seq<Card>) -> bool {
    forall|i: int, j: int| #![trigger s[i], s[j]]
        0 <= i < j < s.len() ==> !(s[i].value == s[j].value && s[i].suit == s[j].suit)
}

/// Position of a card's (rank, suit) pair in the canonical deck
/// layout: rank-major, suit-minor.
pub open spec fn canon_pos(c: Card) -> int {
    4 * rank_idx(c.value) + suit_idx(c.suit)
}

/// How many cards a draw of `n` takes from a deck of `len` cards: `n`,
/// capped at `len` when the deck empties first.
pub open spec fn capped(n: int, len: int) -> int {
    if n <= len {
        n
    } else {
        len
    }
}

/// What is left of the card sequence `s` after drawing `n` cards from
/// its end, stopping early if `s` runs out.
pub open spec fn remaining_after(s: Seq<Card>, n: int) -> Seq<Card> {
    s.take(s.len() - capped(n, s.len() as int))
}

/// Relies on rand's `SliceRandom::shuffle`, seeded from
/// `rand::thread_rng`: a Fisher-Yates shuffle that permutes the slice
/// in place purely by swapping elements, so whichever permutation
/// comes out, the cards afterwards are the same multiset as before.
#[verifier::external_body]
fn shuffle_cards(cards: &mut Vec<Card>)
    ensures
        final(cards)@.to_multiset() == old(cards)@.to_multiset(),
{
    cards.shuffle(&mut rand::thread_rng());
}

/// The suit at position `i` of the canonical layout.
fn nth_suit(i: usize) -> (s: Suit)
    requires
        i < 4,
    ensures
        suit_idx(s) == i,
{
    if i == 0 {
        Suit::HEART
    } else if i == 1 {
        Suit::CLUB
    } else if i == 2 {
        Suit::DIAMOND
    } else {
        Suit::SPADE
    }
}

/// The rank at position `i` of the canonical layout.
fn nth_value(i: usize) -> (v: Value)
    requires
        i < 13,
    ensures
        rank_idx(v) == i,
{
    if i == 0 {
        Value::TWO
    } else if i == 1 {
        Value::THREE
    } else if i == 2 {
        Value::FOUR
    } else if i == 3 {
        Value::FIVE
    } else if i == 4 {
        Value::SIX
    } else if i == 5 {
        Value::SEVEN
    } else if i == 6 {
        Value::EIGHT
    } else if i == 7 {
        Value::NINE
    } else if i == 8 {
        Value::TEN
    } else if i == 9 {
        Value::JACK
    } else if i == 10 {
        Value::QUEEN
    } else if i == 11 {
        Value::KING
    } else {
        Value::ACE
    }
}

/// A single-use deck: all 52 cards at construction, shuffled once,
/// with the trump suit fixed from the card that ended up on the bottom
/// (index 0, the card drawn last), and strictly shrinking from the top
/// as cards are drawn.
pub struct Deck {
    cards: Vec<Card>,
    final_card_value: Value,
    trump_suit: Suit,
}

impl View for Deck {
    type V = Seq<Card>;

    closed spec fn view(&self) -> Seq<Card> {
        self.cards@
    }
}

impl Deck {
    /// The trump suit fixed at construction.
    pub closed spec fn spec_trump_suit(self) -> Suit {
        self.trump_suit
    }

    /// The rank of the card that fixed the trump suit.
    pub closed spec fn spec_final_card_value(self) -> Value {
        self.final_card_value
    }

    /// The deck's standing invariant: no two of its cards share a
    /// (rank, suit) pair, and a card is flagged trump exactly when its
    /// suit is the deck's trump suit.
    pub open spec fn wf(self) -> bool {
        &&& pairs_unique(self@)
        &&& forall|i: int| #![trigger self@[i]]
            0 <= i < self@.len() ==> (self@[i].trump <==> self@[i].suit == self.spec_trump_suit())
    }

    /// A fresh deck: the 52 distinct cards in uniformly random order,
    /// with the trump suit read off the card at index 0 and every
    /// card's trump flag set accordingly.
    pub fn new() -> (d: Deck)
        ensures
            d.wf(),
            d@.len() == 52,
            all_pairs_present(d@),
            d@[0].suit == d.spec_trump_suit(),
            d@[0].value == d.spec_final_card_value(),
    {
        let mut cards: Vec<Card> = Vec::new();
        let mut vi: usize = 0;
        while vi < 13
            invariant
                vi <= 13,
                cards@.len() == 4 * vi,
                forall|a: int| #![trigger cards@[a]]
                    0 <= a < cards@.len() ==> canon_pos(cards@[a]) == a && !cards@[a].trump,
            decreases 13 - vi,
        {
            let mut si: usize = 0;
            while si < 4
                invariant
                    vi < 13,
                    si <= 4,
                    cards@.len() == 4 * vi + si,
                    forall|a: int| #![trigger cards@[a]]
                        0 <= a < cards@.len() ==> canon_pos(cards@[a]) == a && !cards@[a].trump,
                decreases 4 - si,
            {
                let v = nth_value(vi);
                let su = nth_suit(si);
                cards.push(Card::new(v, su, false));
                si = si + 1;
            }
            vi = vi + 1;
        }
        let ghost s0 = cards@;
        proof {
            assert(s0.len() == 52);
            assert forall|v: Value, su: Suit| s0.contains(Card { suit: su, value: v, trump: false })
            by {
                lemma_rank_idx_bijective(v, v);
                lemma_suit_idx_bijective(su, su);
                let t = 4 * rank_idx(v) + suit_idx(su);
                assert(canon_pos(s0[t]) == t);
                lemma_rank_idx_bijective(s0[t].value, v);
                lemma_suit_idx_bijective(s0[t].suit, su);
                assert(s0[t] == (Card { suit: su, value: v, trump: false }));
            }
            assert(s0.no_duplicates()) by {
                assert forall|i: int, j: int| 0 <= i < s0.len() && 0 <= j < s0.len() && i != j
                    implies s0[i] != s0[j] by {
                    assert(canon_pos(s0[i]) == i && canon_pos(s0[j]) == j);
                }
            }
        }
        shuffle_cards(&mut cards);
        let ghost s1 = cards@;
        proof {
            broadcast use vstd::seq_lib::group_to_multiset_ensures;

            s0.lemma_multiset_has_no_duplicates();
            assert(s1.len() == 52) by {
                assert(s1.to_multiset().len() == s0.to_multiset().len());
            }
            // every card of the shuffled deck came from the canonical deck
            assert forall|j: int| 0 <= j < s1.len() implies s0.contains(#[trigger] s1[j]) by {
                assert(s1.contains(s1[j]));
                assert(s1.to_multiset().count(s1[j]) > 0);
            }
            assert forall|j: int| 0 <= j < s1.len() implies !(#[trigger] s1[j].trump) by {
                let i = choose|i: int| 0 <= i < s0.len() && s0[i] == s1[j];
                assert(canon_pos(s0[i]) == i);
            }
            assert(s1.no_duplicates()) by {
                assert forall|x: Card| s1.to_multiset().contains(x) implies s1.to_multiset().count(
                    x,
                ) == 1 by {
                    assert(s0.to_multiset().count(x) > 0);
                }
                s1.lemma_multiset_has_no_duplicates_conv();
            }
            assert(pairs_unique(s1)) by {
                assert forall|i: int, j: int| #![trigger s1[i], s1[j]]
                    0 <= i < j < s1.len() implies !(s1[i].value == s1[j].value && s1[i].suit
                    == s1[j].suit) by {
                    if s1[i].value == s1[j].value && s1[i].suit == s1[j].suit {
                        assert(s1[i] == s1[j]);
                    }
                }
            }
            assert(all_pairs_present(s1)) by {
                assert forall|v: Value, su: Suit| contains_pair(s1, v, su) by {
                    let x = Card { suit: su, value: v, trump: false };
                    assert(s0.to_multiset().count(x) > 0);
                    assert(s1.contains(x));
                    let i = choose|i: int| 0 <= i < s1.len() && s1[i] == x;
                    assert(s1[i].value == v && s1[i].suit == su);
                }
            }
        }
        let top = cards[0];
        let trump_suit = top.suit;
        let final_card_value = top.value;
        let n = cards.len();
        let mut updated: Vec<Card> = Vec::new();
        let mut i: usize = 0;
        while i < n
            invariant
                n == cards@.len(),
                i <= n,
                updated@.len() == i,
                forall|k: int| #![trigger updated@[k]]
                    0 <= k < i ==> updated@[k] == with_trump(cards@[k], trump_suit),
            decreases n - i,
        {
            let c = cards[i];
            updated.push(c.update_trump(trump_suit));
            i = i + 1;
        }
        let d = Deck { cards: updated, final_card_value, trump_suit };
        proof {
            assert forall|k: int| 0 <= k < d@.len() implies (#[trigger] d@[k]).value == s1[k].value
                && d@[k].suit == s1[k].suit && (d@[k].trump <==> d@[k].suit
                == d.spec_trump_suit()) by {
                assert(d@[k] == with_trump(s1[k], trump_suit));
                assert(!s1[k].trump);
            }
            assert(pairs_unique(d@));
            assert(all_pairs_present(d@)) by {
                assert forall|v: Value, su: Suit| contains_pair(d@, v, su) by {
                    assert(contains_pair(s1, v, su));
                    let i2 = choose|i2: int|
                        0 <= i2 < s1.len() && #[trigger] s1[i2].value == v && s1[i2].suit == su;
                    assert(d@[i2].value == v && d@[i2].suit == su);
                }
            }
        }
        d
    }

    /// Remove and hand back the card on top of the deck (the end of
    /// the internal sequence); `None` once the deck is exhausted,
    /// which is the expected terminal condition, not a fault.
    pub fn draw_card(&mut self) -> (r: Option<Card>)
        ensures
            old(self).wf() ==> final(self).wf(),
            final(self).spec_trump_suit() == old(self).spec_trump_suit(),
            final(self).spec_final_card_value() == old(self).spec_final_card_value(),
            old(self)@.len() == 0 ==> r is None && final(self)@ == old(self)@,
            old(self)@.len() > 0 ==> r == Some(old(self)@.last()) && final(self)@ == old(
                self,
            )@.drop_last(),
    {
        self.cards.pop()
    }

    /// Draw up to `n` cards from the top of the deck, in draw order,
    /// stopping early without error if the deck empties first.
    pub fn draw_cards(&mut self, n: u8) -> (r: Vec<Card>)
        ensures
            old(self).wf() ==> final(self).wf(),
            final(self).spec_trump_suit() == old(self).spec_trump_suit(),
            final(self).spec_final_card_value() == old(self).spec_final_card_value(),
            r@.len() == capped(n as int, old(self)@.len() as int),
            final(self)@ == remaining_after(old(self)@, n as int),
            forall|i: int| 0 <= i < r@.len() ==> r@[i] == old(self)@[old(self)@.len() - 1 - i],
    {
        let mut drawn: Vec<Card> = Vec::new();
        let mut i: u8 = 0;
        while i < n
            invariant
                i <= n,
                old(self).wf() ==> self.wf(),
                self.spec_trump_suit() == old(self).spec_trump_suit(),
                self.spec_final_card_value() == old(self).spec_final_card_value(),
                drawn@.len() == capped(i as int, old(self)@.len() as int),
                self@ == old(self)@.take(old(self)@.len() - drawn@.len()),
                forall|k: int|
                    0 <= k < drawn@.len() ==> drawn@[k] == old(self)@[old(self)@.len() - 1 - k],
            decreases n - i,
        {
            let ghost pre = self@;
            match self.draw_card() {
                Some(c) => {
                    proof {
                        assert(pre.len() > 0);
                        assert(pre.drop_last() =~= old(self)@.take(
                            old(self)@.len() - (drawn@.len() + 1),
                        ));
                        assert(pre.last() == old(self)@[old(self)@.len() - 1 - drawn@.len()]);
                    }
                    drawn.push(c);
                },
                None => {},
            }
            i = i + 1;
        }
        proof {
            assert(self@ =~= remaining_after(old(self)@, n as int));
        }
        drawn
    }

    /// The trump suit fixed at construction; constant for the deck's
    /// lifetime.
    pub fn trump_suit(&self) -> (s: Suit)
        ensures
            s == self.spec_trump_suit(),
    {
        self.trump_suit
    }

    /// The rank of the trump-fixing card, kept for display.
    pub fn final_card_value(&self) -> (v: Value)
        ensures
            v == self.spec_final_card_value(),
    {
        self.final_card_value
    }
}

/// Drawing `n` cards from a full 52-card deck and then `52 - n` more
/// exhausts it: nothing remains, so a further draw hands back nothing.
pub proof fn lemma_draws_exhaust(s: Seq<Card>, n: int)
    requires
        s.len() == 52,
        0 <= n <= 52,
    ensures
        remaining_after(s, n).len() == 52 - n,
        remaining_after(remaining_after(s, n), 52 - n).len() == 0,
{
}

} // verus!
