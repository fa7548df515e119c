//! Players, the strategy that picks their plays, and the order of their turns.
use vstd::prelude::*;

use crate::card::{Card, Color};
use crate::cycle::{Cycle, CycleState, Turn};
use crate::legality::{
    legal_cards, lemma_legal_from_candidates, lemma_unique_cards_contains, playable_cards,
    unique_cards,
};
use crate::random::choose_one;

verus! {

/// Number of players in a game.
pub const N_PLAYERS: usize = 4;

/// A play: the card played, if any.
pub type Play = Option<Card>;

/// `played` is how `chosen` leaves the hand: a wild card with a color picked
/// for it, any other card as it is.
pub open spec fn played_as(chosen: Card, played: Card) -> bool {
    if chosen.wild() {
        played.symbol == chosen.symbol && played.color is Some
    } else {
        played == chosen
    }
}

/// How a player picks a play from the cards it may play.
#[derive(Debug, Clone, Copy, PartialEq, Eq, Structural)]
pub enum Strategy {
    /// Any legal card with equal chance, and any color for a wild card.
    Random,
}

/// A color picked at random.
pub fn select_random_color() -> (r: Color) {
    let colors: Vec<Color> = vec![Color::Red, Color::Blue, Color::Green, Color::Yellow];
    choose_one(&colors).unwrap()
}

impl Strategy {
    /// Picks a card of `legal_cards` to play; a wild card gets a color.
    pub fn select_card(&self, legal_cards: &Vec<Card>) -> (r: Play)
        ensures
            r is None <==> legal_cards@.len() == 0,
            r matches Some(c) ==> exists|i: int| 0 <= i < legal_cards@.len() && played_as(#[trigger] legal_cards@[i], c),
    {
        match self {
            Strategy::Random => {
                let chosen = choose_one(legal_cards);
                match chosen {
                    None => None,
                    Some(card) => {
                        let mut card = card;
                        if card.is_wild() {
                            // a wild card needs a color
                            let color = select_random_color();
                            card.color = Some(color);
                        }
                        let ghost i = choose|i: int| 0 <= i < legal_cards@.len() && legal_cards@[i] == chosen->0;
                        assert(played_as(legal_cards@[i], card));
                        Some(card)
                    },
                }
            },
        }
    }
}

/// A player: a name, a hand of cards, and a strategy.
#[derive(Debug)]
pub struct Player {
    name: &'static str,
    hand: Vec<Card>,
    strategy: Strategy,
}

impl View for Player {
    type V = Seq<Card>;

    /// The hand.
    closed spec fn view(&self) -> Seq<Card> {
        self.hand@
    }
}

impl Player {
    pub closed spec fn player_name(&self) -> &'static str {
        self.name
    }

    pub fn name(&self) -> (r: &'static str)
        ensures
            r == self.player_name(),
    {
        self.name
    }

    /// A player with an empty hand who plays at random.
    pub fn new(name: &'static str) -> (r: Self)
        ensures
            r.player_name() == name,
            r@.len() == 0,
    {
        let hand: Vec<Card> = Vec::new();
        Self { name, hand, strategy: Strategy::Random }
    }

    pub fn hand(&self) -> (r: &Vec<Card>)
        ensures
            r@ == self@,
    {
        &self.hand
    }

    /// Takes `cards` into the hand.
    pub fn take_cards(&mut self, cards: Vec<Card>)
        ensures
            final(self)@ == old(self)@ + cards@,
            final(self).player_name() == old(self).player_name(),
    {
        let mut cards = cards;
        self.hand.append(&mut cards);
    }

    /// Picks a play from `cards` on `top_card`, if any of them is legal.
    pub fn play_from_cards(&self, top_card: &Card, cards: Vec<Card>) -> (r: Play)
        requires
            cards@.len() > 0,
            top_card.color is Some,
        ensures
            r is None <==> legal_cards(cards@, *top_card).len() == 0,
            r matches Some(c) ==> exists|i: int|
                0 <= i < legal_cards(cards@, *top_card).len() && played_as(#[trigger] legal_cards(cards@, *top_card)[i], c),
    {
        let ghost candidates = cards@;
        let choices = playable_cards(cards, *top_card);
        let ghost legal = legal_cards(candidates, *top_card);
        proof {
            lemma_unique_cards_contains(legal);
        }
        if choices.len() == 0 {
            None
        } else {
            let r = self.strategy.select_card(&choices);
            proof {
                if let Some(c) = r {
                    let i = choose|i: int| 0 <= i < choices@.len() && played_as(#[trigger] choices@[i], c);
                    assert(unique_cards(legal).contains(choices@[i]));
                    let j = choose|j: int| 0 <= j < legal.len() && legal[j] == choices@[i];
                    assert(played_as(legal[j], c));
                }
            }
            r
        }
    }

    /// Plays a card from the hand on `top_card`, if any is legal, and removes
    /// from the hand the first card equal to it (a wild card's color aside).
    pub fn play_from_hand(&mut self, top_card: &Card) -> (r: Play)
        requires
            old(self)@.len() > 0,
            top_card.color is Some,
        ensures
            final(self).player_name() == old(self).player_name(),
            r is None <==> legal_cards(old(self)@, *top_card).len() == 0,
            r is None ==> final(self)@ == old(self)@,
            r matches Some(c) ==> {
                &&& exists|i: int|
                    0 <= i < legal_cards(old(self)@, *top_card).len() && played_as(#[trigger] legal_cards(old(self)@, *top_card)[i], c)
                &&& exists|k: int|
                    {
                        &&& 0 <= k < old(self)@.len()
                        &&& (#[trigger] old(self)@[k]).same_ignoring_wild_color(c)
                        &&& forall|j: int| 0 <= j < k ==> !(#[trigger] old(self)@[j]).same_ignoring_wild_color(c)
                        &&& final(self)@ == old(self)@.remove(k)
                    }
            },
    {
        let cards = self.hand.clone();
        assert(cards@ =~= self.hand@);
        let card = self.play_from_cards(top_card, cards);

        // remove card from hand
        if let Some(played) = card {
            let ghost legal = legal_cards(self@, *top_card);
            proof {
                lemma_legal_from_candidates(self@, *top_card);
                let i = choose|i: int| 0 <= i < legal.len() && played_as(#[trigger] legal[i], played);
                let m = choose|m: int| 0 <= m < self@.len() && self@[m] == legal[i];
                assert(self@[m].same_ignoring_wild_color(played));
            }
            let mut index: usize = 0;
            while index < self.hand.len() && !self.hand[index].is_equal_ignore_wild_color(&played)
                invariant
                    index <= self.hand@.len(),
                    self@ == old(self)@,
                    forall|j: int| 0 <= j < index ==> !(#[trigger] self.hand@[j]).same_ignoring_wild_color(played),
                    exists|m: int| 0 <= m < self.hand@.len() && (#[trigger] self.hand@[m]).same_ignoring_wild_color(played),
                decreases self.hand@.len() - index,
            {
                index = index + 1;
            }
            self.hand.remove(index);
        }
        card
    }
}

/// Whether `player` has played all its cards.
pub fn game_over(player: &Player) -> (r: bool)
    ensures
        r == (player@.len() == 0),
{
    player.hand.len() == 0
}

/// The names of the players, in order of their turns.
pub open spec fn player_names() -> Seq<&'static str> {
    seq!["A", "B", "C", "D"]
}

/// The players of a game, named `A`, `B`, `C` and `D`, with empty hands.
pub fn generate_players(n_players: usize) -> (r: Vec<Player>)
    requires
        n_players == N_PLAYERS,
    ensures
        r@.len() == n_players,
        forall|i: int| 0 <= i < n_players ==> (#[trigger] r@[i])@.len() == 0,
        forall|i: int| 0 <= i < n_players ==> (#[trigger] r@[i]).player_name() == player_names()[i],
{
    let names: [&'static str; 4] = ["A", "B", "C", "D"];
    assert(names@ =~= player_names());
    let mut players: Vec<Player> = Vec::with_capacity(n_players);
    let mut i: usize = 0;
    while i < 4
        invariant
            i <= 4,
            players@.len() == i,
            forall|j: int| 0 <= j < i ==> (#[trigger] players@[j])@.len() == 0,
            forall|j: int| 0 <= j < i ==> (#[trigger] players@[j]).player_name() == player_names()[j],
            names@ == player_names(),
        decreases 4 - i,
    {
        let player = Player::new(names[i]);
        players.push(player);
        i = i + 1;
    }
    players
}

/// The players together with the order of their turns.
#[derive(Debug)]
pub struct PlayerCycle {
    players: Vec<Player>,
    cycle: Cycle,
}

impl PlayerCycle {
    pub closed spec fn players(&self) -> Seq<Player> {
        self.players@
    }

    pub closed spec fn turns(&self) -> CycleState {
        self.cycle@
    }

    /// There is one position of the cycle for each player.
    pub closed spec fn wf(&self) -> bool {
        &&& self.cycle.wf()
        &&& self.cycle@.wf()
        &&& self.cycle@.n == self.players@.len()
    }

    /// In a sound cycle every position names a player.
    pub proof fn lemma_positions(&self)
        requires
            self.wf(),
        ensures
            self.turns().wf(),
            self.turns().n == self.players().len(),
    {
    }

    /// `n_players` players with empty hands; the first turn goes to the first.
    pub fn new(n_players: usize) -> (r: Self)
        requires
            n_players == N_PLAYERS,
        ensures
            r.wf(),
            r.players().len() == n_players,
            forall|i: int| 0 <= i < n_players ==> (#[trigger] r.players()[i])@.len() == 0,
            forall|i: int| 0 <= i < n_players ==> (#[trigger] r.players()[i]).player_name() == player_names()[i],
            r.turns() == (CycleState { n: n_players as nat, current: (n_players - 1) as nat, reversed: false, turn: 0 }),
    {
        let players = generate_players(n_players);
        let cycle = Cycle::new(n_players);
        Self { players, cycle }
    }

    /// Moves the turn to the next player and returns that player.
    pub fn next(&mut self) -> (r: &mut Player)
        requires
            old(self).wf(),
            old(self).turns().turn < u32::MAX,
        ensures
            final(self).wf(),
            final(self).turns() == old(self).turns().advanced(),
            *r == old(self).players()[old(self).turns().advanced().current as int],
            final(self).players() == old(self).players().update(old(self).turns().advanced().current as int, *final(r)),
    {
        let index = self.cycle.next().unwrap();
        &mut self.players[index]
    }

    /// Number of turns played so far.
    pub fn turn(&self) -> (r: Turn)
        ensures
            r as nat == self.turns().turn,
    {
        self.cycle.turn()
    }

    /// Reverses the order of turns.
    pub fn reverse(&mut self)
        requires
            old(self).wf(),
        ensures
            final(self).wf(),
            final(self).turns() == old(self).turns().reversed_state(),
            final(self).players() == old(self).players(),
    {
        self.cycle.reverse();
    }

    /// Skips the next player; returns the name of the player skipped.
    pub fn skip(&mut self) -> (r: &'static str)
        requires
            old(self).wf(),
            old(self).turns().turn < u32::MAX,
        ensures
            final(self).wf(),
            final(self).turns() == old(self).turns().advanced(),
            final(self).players() == old(self).players(),
            r == old(self).players()[final(self).turns().current as int].player_name(),
    {
        let player = self.next();
        player.name()
    }

    /// The names of the players, in order.
    pub fn get_names(&self) -> (r: Vec<&'static str>)
        ensures
            r@.len() == self.players().len(),
            forall|i: int| 0 <= i < r@.len() ==> r@[i] == (#[trigger] self.players()[i]).player_name(),
    {
        let mut names: Vec<&'static str> = Vec::with_capacity(self.players.len());
        let mut i: usize = 0;
        while i < self.players.len()
            invariant
                i <= self.players@.len(),
                names@.len() == i,
                forall|j: int| 0 <= j < i ==> names@[j] == (#[trigger] self.players@[j]).player_name(),
            decreases self.players@.len() - i,
        {
            names.push(self.players[i].name());
            i = i + 1;
        }
        names
    }

    /// Gives each player the hand of the same position in `hands`.
    pub fn take_hands(&mut self, hands: Vec<Vec<Card>>)
        requires
            hands@.len() == old(self).players().len(),
        ensures
            final(self).wf() == old(self).wf(),
            final(self).turns() == old(self).turns(),
            final(self).players().len() == old(self).players().len(),
            forall|i: int| 0 <= i < hands@.len() ==> {
                &&& (#[trigger] final(self).players()[i])@ == old(self).players()[i]@ + hands@[i]@
                &&& final(self).players()[i].player_name() == old(self).players()[i].player_name()
            },
    {
        let mut hands = hands;
        let ghost all = hands@;
        let mut i: usize = hands.len();
        while i > 0
            invariant
                i <= all.len(),
                hands@ == all.take(i as int),
                self.cycle == old(self).cycle,
                self.players@.len() == all.len(),
                forall|j: int| 0 <= j < i ==> (#[trigger] self.players@[j]) == old(self).players()[j],
                forall|j: int| i <= j < all.len() ==> {
                    &&& (#[trigger] self.players@[j])@ == old(self).players()[j]@ + all[j]@
                    &&& self.players@[j].player_name() == old(self).players()[j].player_name()
                },
            decreases i,
        {
            let hand = hands.pop().unwrap();
            assert(hand == all[i - 1]);
            i = i - 1;
            self.players[i].take_cards(hand);
            assert(all.take(i as int) =~= all.take(i + 1).drop_last());
        }
    }
}

} // verus!
