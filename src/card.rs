//! Cards, their colors and symbols, and the standard deck.
use vstd::prelude::*;

use crate::random::randomly_shuffle_cards;
use std::collections::VecDeque;

verus! {

/// Number of cards in the standard deck.
pub const N_CARDS: usize = 108;

/// The four card colors.
#[derive(Debug, Clone, Copy, PartialEq, Eq, Structural, Hash)]
pub enum Color {
    Red,
    Blue,
    Green,
    Yellow,
}

/// What is printed on a card besides its color.
#[derive(Debug, Clone, Copy, PartialEq, Eq, Structural, Hash)]
pub enum Symbol {
    Number(u8),
    Skip,
    Reverse,
    Draw2,
    Wild,
    WildDraw4,
}

/// A card. A wild card has no color until it is played; then it carries the
/// color chosen by the player.
#[derive(Debug, Clone, Copy, PartialEq, Eq, Structural, Hash)]
pub struct Card {
    pub symbol: Symbol,
    pub color: Option<Color>,
}

/// The draw pile.
pub type Deck = VecDeque<Card>;

impl Card {
    pub open spec fn wild(self) -> bool {
        self.symbol is Wild || self.symbol is WildDraw4
    }

    pub open spec fn wild_draw_4(self) -> bool {
        self.symbol is WildDraw4
    }

    /// Equal as cards of the deck: a wild card's chosen color does not count.
    pub open spec fn same_ignoring_wild_color(self, other: Card) -> bool {
        if self.wild() {
            self.symbol == other.symbol
        } else {
            self.symbol == other.symbol && self.color == other.color
        }
    }

    /// The card as it lies in the draw pile: wild cards lose their color.
    pub open spec fn returned_to_deck(self) -> Card {
        if self.wild() {
            Card { color: None, ..self }
        } else {
            self
        }
    }

    /// A card as it may lie in the draw pile: a colored card has its color,
    /// a wild card has none.
    pub open spec fn valid_in_deck(self) -> bool {
        self.wild() <==> self.color is None
    }

    pub fn is_wild(&self) -> (r: bool)
        ensures
            r == self.wild(),
    {
        matches!(self.symbol, Symbol::Wild | Symbol::WildDraw4)
    }

    pub fn is_wild_draw_4(&self) -> (r: bool)
        ensures
            r == self.wild_draw_4(),
    {
        matches!(self.symbol, Symbol::WildDraw4)
    }

    pub fn is_equal_ignore_wild_color(&self, other: &Card) -> (r: bool)
        ensures
            r == self.same_ignoring_wild_color(*other),
    {
        match self.is_wild() {
            true => self.symbol == other.symbol,
            false => self.symbol == other.symbol && self.color == other.color,
        }
    }
}

/// [`Card::returned_to_deck`] as a function.
pub open spec fn returned_to_deck() -> spec_fn(Card) -> Card {
    |c: Card| c.returned_to_deck()
}

/// The numbers printed on the cards of one color: one zero, two of each of
/// one to nine.
pub open spec fn deck_numbers() -> Seq<u8> {
    seq![0u8, 1, 2, 3, 4, 5, 6, 7, 8, 9, 1, 2, 3, 4, 5, 6, 7, 8, 9]
}

/// The action symbols of one color: two of each.
pub open spec fn deck_color_symbols() -> Seq<Symbol> {
    seq![Symbol::Draw2, Symbol::Draw2, Symbol::Reverse, Symbol::Reverse, Symbol::Skip, Symbol::Skip]
}

/// The wild symbols of the deck: four of each.
pub open spec fn deck_wild_symbols() -> Seq<Symbol> {
    seq![
        Symbol::Wild,
        Symbol::Wild,
        Symbol::Wild,
        Symbol::Wild,
        Symbol::WildDraw4,
        Symbol::WildDraw4,
        Symbol::WildDraw4,
        Symbol::WildDraw4,
    ]
}

pub open spec fn all_colors() -> Seq<Color> {
    seq![Color::Red, Color::Blue, Color::Green, Color::Yellow]
}

/// The cards of color `c`: the numbered cards, then the action cards.
pub open spec fn colored_cards(c: Color) -> Seq<Card> {
    deck_numbers().map_values(|n: u8| Card { symbol: Symbol::Number(n), color: Some(c) })
        + deck_color_symbols().map_values(|s: Symbol| Card { symbol: s, color: Some(c) })
}

/// The colored cards of the first `k` colors.
pub open spec fn colored_prefix(k: nat) -> Seq<Card>
    decreases k,
{
    if k == 0 {
        Seq::empty()
    } else {
        colored_prefix((k - 1) as nat) + colored_cards(all_colors()[k - 1])
    }
}

pub open spec fn wild_cards() -> Seq<Card> {
    deck_wild_symbols().map_values(|s: Symbol| Card { symbol: s, color: None })
}

/// The standard deck, in a fixed order: the cards of each color, then the
/// wild cards.
pub open spec fn standard_deck() -> Seq<Card> {
    colored_prefix(4) + wild_cards()
}

/// Every card of the standard deck may lie in the draw pile.
pub proof fn lemma_standard_deck_valid()
    ensures
        standard_deck().len() == N_CARDS,
        forall|i: int| 0 <= i < standard_deck().len() ==> (#[trigger] standard_deck()[i]).valid_in_deck(),
{
    reveal_with_fuel(colored_prefix, 5);
    assert forall|c: Color, i: int| 0 <= i < colored_cards(c).len() implies (#[trigger] colored_cards(c)[i]).valid_in_deck() by {
        if i < 19 {
            assert(colored_cards(c)[i] == deck_numbers().map_values(|n: u8| Card { symbol: Symbol::Number(n), color: Some(c) })[i]);
        } else {
            assert(colored_cards(c)[i] == deck_color_symbols().map_values(|s: Symbol| Card { symbol: s, color: Some(c) })[i - 19]);
        }
    }
    let d = standard_deck();
    assert forall|i: int| 0 <= i < d.len() implies (#[trigger] d[i]).valid_in_deck() by {
        if i < 25 {
            assert(d[i] == colored_cards(Color::Red)[i]);
        } else if i < 50 {
            assert(d[i] == colored_cards(Color::Blue)[i - 25]);
        } else if i < 75 {
            assert(d[i] == colored_cards(Color::Green)[i - 50]);
        } else if i < 100 {
            assert(d[i] == colored_cards(Color::Yellow)[i - 75]);
        } else {
            assert(d[i] == wild_cards()[i - 100]);
        }
    }
}

/// Two distinct cards occur together at most as often as the sequence is
/// long, and exactly that often when the sequence holds no other card.
pub proof fn lemma_count_two(s: Seq<Card>, a: Card, b: Card)
    requires
        a != b,
    ensures
        s.to_multiset().count(a) + s.to_multiset().count(b) <= s.len(),
        (forall|i: int| 0 <= i < s.len() ==> #[trigger] s[i] == a || s[i] == b)
            ==> s.to_multiset().count(a) + s.to_multiset().count(b) == s.len(),
    decreases s.len(),
{
    broadcast use vstd::seq_lib::group_to_multiset_ensures;

    if s.len() == 0 {
        assert(s.to_multiset().len() == 0);
    } else {
        let t = s.drop_last();
        lemma_count_two(t, a, b);
        assert(s =~= t.push(s.last()));
        if forall|i: int| 0 <= i < s.len() ==> #[trigger] s[i] == a || s[i] == b {
            assert forall|i: int| 0 <= i < t.len() implies #[trigger] t[i] == a || t[i] == b by {
                assert(t[i] == s[i]);
            }
            assert(s[s.len() - 1] == a || s[s.len() - 1] == b);
        }
    }
}

/// The standard deck holds at most eight wild cards without color.
pub proof fn lemma_standard_deck_wild_count()
    ensures
        standard_deck().to_multiset().count(Card { symbol: Symbol::Wild, color: None })
            + standard_deck().to_multiset().count(Card { symbol: Symbol::WildDraw4, color: None }) <= 8,
{
    broadcast use vstd::seq_lib::group_to_multiset_ensures;

    let wild = Card { symbol: Symbol::Wild, color: None };
    let wild4 = Card { symbol: Symbol::WildDraw4, color: None };
    reveal_with_fuel(colored_prefix, 5);
    let cp = colored_prefix(4);
    let w = wild_cards();
    assert forall|c: Color, i: int| 0 <= i < colored_cards(c).len() implies (#[trigger] colored_cards(c)[i]).color is Some by {
        if i < 19 {
            assert(colored_cards(c)[i] == deck_numbers().map_values(|n: u8| Card { symbol: Symbol::Number(n), color: Some(c) })[i]);
        } else {
            assert(colored_cards(c)[i] == deck_color_symbols().map_values(|s: Symbol| Card { symbol: s, color: Some(c) })[i - 19]);
        }
    }
    assert forall|i: int| 0 <= i < cp.len() implies (#[trigger] cp[i]).color is Some by {
        if i < 25 {
            assert(cp[i] == colored_cards(Color::Red)[i]);
        } else if i < 50 {
            assert(cp[i] == colored_cards(Color::Blue)[i - 25]);
        } else if i < 75 {
            assert(cp[i] == colored_cards(Color::Green)[i - 50]);
        } else {
            assert(cp[i] == colored_cards(Color::Yellow)[i - 75]);
        }
    }
    assert(!cp.contains(wild));
    assert(!cp.contains(wild4));
    lemma_count_two(w, wild, wild4);
    vstd::seq_lib::lemma_multiset_commutative(cp, w);
}

/// A freshly shuffled standard deck.
pub fn generate_deck() -> (r: Deck)
    ensures
        r@.len() == N_CARDS,
        r@.to_multiset() == standard_deck().to_multiset(),
{
    let numbers: [u8; 19] = [0, 1, 2, 3, 4, 5, 6, 7, 8, 9, 1, 2, 3, 4, 5, 6, 7, 8, 9];
    let color_symbols: [Symbol; 6] = [
        Symbol::Draw2,
        Symbol::Draw2,
        Symbol::Reverse,
        Symbol::Reverse,
        Symbol::Skip,
        Symbol::Skip,
    ];
    let wild_symbols: [Symbol; 8] = [
        Symbol::Wild,
        Symbol::Wild,
        Symbol::Wild,
        Symbol::Wild,
        Symbol::WildDraw4,
        Symbol::WildDraw4,
        Symbol::WildDraw4,
        Symbol::WildDraw4,
    ];
    let colors: [Color; 4] = [Color::Red, Color::Blue, Color::Green, Color::Yellow];
    assert(numbers@ =~= deck_numbers());
    assert(color_symbols@ =~= deck_color_symbols());
    assert(wild_symbols@ =~= deck_wild_symbols());
    assert(colors@ =~= all_colors());

    let mut cards: Vec<Card> = Vec::with_capacity(N_CARDS);

    // color cards
    let mut k: usize = 0;
    while k < 4
        invariant
            k <= 4,
            numbers@ == deck_numbers(),
            color_symbols@ == deck_color_symbols(),
            colors@ == all_colors(),
            cards@ == colored_prefix(k as nat),
        decreases 4 - k,
    {
        let color = colors[k];
        let ghost start = cards@;
        let mut j: usize = 0;
        while j < 19
            invariant
                j <= 19,
                numbers@ == deck_numbers(),
                cards@ == start + colored_cards(color).take(j as int),
            decreases 19 - j,
        {
            let card = Card { symbol: Symbol::Number(numbers[j]), color: Some(color) };
            cards.push(card);
            assert(colored_cards(color).take(j + 1) =~= colored_cards(color).take(j as int).push(card));
            j = j + 1;
        }
        let mut j: usize = 0;
        while j < 6
            invariant
                j <= 6,
                color_symbols@ == deck_color_symbols(),
                cards@ == start + colored_cards(color).take(19 + j),
            decreases 6 - j,
        {
            let card = Card { symbol: color_symbols[j], color: Some(color) };
            cards.push(card);
            assert(colored_cards(color).take(19 + j + 1) =~= colored_cards(color).take(19 + j).push(card));
            j = j + 1;
        }
        assert(colored_cards(color).take(25) =~= colored_cards(color));
        k = k + 1;
    }

    // wild cards
    let mut j: usize = 0;
    while j < 8
        invariant
            j <= 8,
            wild_symbols@ == deck_wild_symbols(),
            cards@ == colored_prefix(4) + wild_cards().take(j as int),
        decreases 8 - j,
    {
        let card = Card { symbol: wild_symbols[j], color: None };
        cards.push(card);
        assert(wild_cards().take(j + 1) =~= wild_cards().take(j as int).push(card));
        j = j + 1;
    }
    assert(wild_cards().take(8) =~= wild_cards());
    proof {
        lemma_standard_deck_valid();
    }

    // shuffle deck
    cards = randomly_shuffle_cards(cards);

    // return as deque type
    let mut deck: Deck = VecDeque::with_capacity(N_CARDS);
    let mut i: usize = 0;
    while i < cards.len()
        invariant
            i <= cards@.len(),
            deck@ == cards@.take(i as int),
        decreases cards@.len() - i,
    {
        deck.push_back(cards[i]);
        assert(cards@.take(i + 1) =~= cards@.take(i as int).push(cards@[i as int]));
        i = i + 1;
    }
    assert(cards@.take(i as int) =~= cards@);
    deck
}

} // verus!
