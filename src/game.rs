//! One game: the turn-by-turn rules that tie the players and the dealer together.
use vstd::prelude::*;

use crate::card::{
    lemma_count_two, lemma_standard_deck_wild_count, standard_deck, Card, Symbol, N_CARDS,
};
use crate::cycle::{lemma_advance_moves, CycleState, Turn};
use crate::dealer::{all_valid_in_deck, lemma_drew_total, Dealer, DealerView};
use crate::legality::{legal_cards, lemma_legal_from_candidates};
use crate::player::{game_over, played_as, Play, Player, PlayerCycle, N_PLAYERS};

verus! {

broadcast use vstd::seq_lib::group_to_multiset_ensures;

/// Number of cards in each hand at the start.
pub const N_INITIAL_CARDS: usize = 7;

/// A state that the rules should never reach; the game stops there.
#[derive(Debug, Clone, Copy, PartialEq, Eq, Structural)]
pub enum InvariantViolation {
    /// The draw and discard piles together cannot give the cards asked for
    /// while keeping the top card.
    CardsExhausted,
    /// The turn counter is at its largest value.
    TurnLimit,
    /// The player to move holds no card.
    EmptyHand,
}

/// What the card played last made happen at the start of a turn.
#[derive(Debug, Clone, Copy)]
pub enum Action {
    Nothing,
    /// The named player lost the turn.
    Skipped(&'static str),
    /// The order of turns was reversed.
    Reversed,
    /// The named player took that many cards.
    Took(&'static str, usize),
}

/// An account of one turn.
#[derive(Debug, Clone, Copy)]
pub struct TurnReport {
    /// The card played last, whose action opened the turn.
    pub previous: Play,
    pub action: Action,
    pub turn: Turn,
    pub player: &'static str,
    /// The card played from the hand, if any.
    pub from_hand: Play,
    /// The card drawn when nothing could be played from the hand.
    pub drawn: Option<Card>,
    /// The card played this turn, if any.
    pub play: Play,
    /// The player has one card left.
    pub uno: bool,
    /// The player has no card left and wins.
    pub winner: bool,
}

/// Number of cards in all `hands`.
pub open spec fn held(hands: Seq<Seq<Card>>) -> nat
    decreases hands.len(),
{
    if hands.len() == 0 {
        0
    } else {
        held(hands.drop_last()) + hands.last().len()
    }
}

/// Replacing one hand changes the count by the difference of their sizes.
pub proof fn lemma_held_update(hands: Seq<Seq<Card>>, i: int, hand: Seq<Card>)
    requires
        0 <= i < hands.len(),
    ensures
        held(hands.update(i, hand)) + hands[i].len() == held(hands) + hand.len(),
    decreases hands.len(),
{
    let updated = hands.update(i, hand);
    if i == hands.len() - 1 {
        assert(updated.drop_last() =~= hands.drop_last());
    } else {
        lemma_held_update(hands.drop_last(), i, hand);
        assert(updated.drop_last() =~= hands.drop_last().update(i, hand));
    }
}

/// The hand of a player, as a function.
pub open spec fn hand_of() -> spec_fn(Player) -> Seq<Card> {
    |p: Player| p@
}

/// Replacing a player replaces that player's hand.
proof fn lemma_hands_update(players: Seq<Player>, i: int, p: Player)
    requires
        0 <= i < players.len(),
    ensures
        players.update(i, p).map_values(hand_of()) == players.map_values(hand_of()).update(i, p@),
{
    assert(players.update(i, p).map_values(hand_of()) =~= players.map_values(hand_of()).update(i, p@));
}

/// Turns by which the action of `play` moves on before the next player's turn.
pub open spec fn action_advances(play: Play) -> nat {
    match play {
        Some(c) => if c.symbol is Skip || c.symbol is Draw2 || c.symbol is WildDraw4 {
            1
        } else {
            0
        },
        None => 0,
    }
}

/// Cards that the action of `play` makes a player take.
pub open spec fn action_draws(play: Play) -> nat {
    match play {
        Some(c) => if c.symbol is Draw2 {
            2
        } else if c.symbol is WildDraw4 {
            4
        } else {
            0
        },
        None => 0,
    }
}

/// The order of turns after the action of `play` was carried out.
pub open spec fn after_action(turns: CycleState, play: Play) -> CycleState {
    match play {
        Some(c) => if c.symbol is Reverse {
            turns.reversed_state()
        } else if action_advances(play) == 1 {
            turns.advanced()
        } else {
            turns
        },
        None => turns,
    }
}

/// Whether `n` cards can be drawn while the discard pile keeps its top card.
fn can_draw(dealer: &Dealer, n: usize) -> (r: bool)
    requires
        n <= 4,
    ensures
        r == (n + 1 < dealer@.total()),
{
    let d = dealer.deck().len();
    let p = dealer.pile().len();
    if d > n + 1 {
        true
    } else {
        n + 1 - d < p
    }
}

/// A card played from `hand` carries a color.
proof fn lemma_played_colored(hand: Seq<Card>, top: Card, c: Card)
    requires
        all_valid_in_deck(hand),
        exists|i: int| 0 <= i < legal_cards(hand, top).len() && played_as(#[trigger] legal_cards(hand, top)[i], c),
    ensures
        c.color is Some,
{
    let legal = legal_cards(hand, top);
    let i = choose|i: int| 0 <= i < legal.len() && played_as(#[trigger] legal[i], c);
    lemma_legal_from_candidates(hand, top);
    assert(hand.contains(legal[i]));
}

/// The players, the dealer, and the card played last.
#[derive(Debug)]
pub struct Game {
    players: PlayerCycle,
    dealer: Dealer,
    play: Play,
}

impl Game {
    pub closed spec fn dealer_state(&self) -> DealerView {
        self.dealer@
    }

    pub closed spec fn turns(&self) -> CycleState {
        self.players.turns()
    }

    /// The hands of the players, in order of their turns.
    pub closed spec fn hands(&self) -> Seq<Seq<Card>> {
        self.players.players().map_values(hand_of())
    }

    /// The card played last, whose action opens the next turn.
    pub closed spec fn last_play(&self) -> Play {
        self.play
    }

    /// All cards of the game: the draw pile, the discard pile and the hands.
    pub open spec fn card_count(&self) -> nat {
        self.dealer_state().total() + held(self.hands())
    }

    /// The player whose turn comes once the action of the card played last
    /// is carried out.
    pub open spec fn mover(&self) -> int {
        after_action(self.turns(), self.last_play()).advanced().current as int
    }

    /// The error that the next turn stops on, checked in this order: the
    /// turn counter at its limit before an action that moves the turn on; too
    /// few cards for the action's draw; the turn counter at its limit before
    /// the next player's turn; an empty hand; too few cards to draw one when
    /// nothing in the hand is legal.
    pub open spec fn next_error(&self) -> Option<InvariantViolation> {
        let t = self.turns().turn;
        let play = self.last_play();
        let n = action_draws(play);
        let hand = self.hands()[self.mover()];
        if action_advances(play) == 1 && t == Turn::MAX {
            Some(InvariantViolation::TurnLimit)
        } else if n > 0 && !(n + 1 < self.dealer_state().total()) {
            Some(InvariantViolation::CardsExhausted)
        } else if t + action_advances(play) >= Turn::MAX {
            Some(InvariantViolation::TurnLimit)
        } else if hand.len() == 0 {
            Some(InvariantViolation::EmptyHand)
        } else if legal_cards(hand, self.dealer_state().top()).len() == 0 && !(2 + n
            < self.dealer_state().total()) {
            Some(InvariantViolation::CardsExhausted)
        } else {
            None
        }
    }

    /// The players, in order of their turns.
    pub fn players(&self) -> (r: &PlayerCycle)
        ensures
            r.turns() == self.turns(),
    {
        &self.players
    }

    /// The dealer with the draw and discard piles.
    pub fn dealer(&self) -> (r: &Dealer)
        ensures
            r@ == self.dealer_state(),
    {
        &self.dealer
    }

    /// The dealer's piles are sound, the discard pile has a top card, and
    /// every hand holds cards as they came from the draw pile.
    pub closed spec fn wf(&self) -> bool {
        &&& self.players.wf()
        &&& self.players.players().len() == N_PLAYERS
        &&& self.dealer@.wf()
        &&& self.dealer@.pile.len() > 0
        &&& forall|i: int| 0 <= i < self.players.players().len() ==> all_valid_in_deck(#[trigger] self.players.players()[i]@)
    }

    /// Deals a hand to each player and turns the opening card; the opening
    /// card's action is carried out at the start of the first turn.
    pub fn new() -> (r: Self)
        ensures
            r.wf(),
            r.hands().len() == N_PLAYERS,
            forall|i: int| 0 <= i < N_PLAYERS ==> (#[trigger] r.hands()[i]).len() == N_INITIAL_CARDS,
            r.turns() == (CycleState { n: N_PLAYERS as nat, current: (N_PLAYERS - 1) as nat, reversed: false, turn: 0 }),
            r.dealer_state().pile.len() == 1,
            r.last_play() == Some(r.dealer_state().top()),
            r.card_count() == N_CARDS,
    {
        let mut players = PlayerCycle::new(N_PLAYERS);
        let mut dealer = Dealer::new();
        let ghost full = dealer@.deck;
        let hands = dealer.draw_hands(N_PLAYERS, N_INITIAL_CARDS);
        let ghost dealt = hands@;
        players.take_hands(hands);
        proof {
            lemma_opening_card_left(full, dealer@.deck);
        }
        dealer.flip_first_card();
        let play = Some(dealer.top_card());
        let game = Self { players, dealer, play };
        proof {
            assert forall|i: int| 0 <= i < game.players.players().len() implies all_valid_in_deck(#[trigger] game.players.players()[i]@) by {
                assert(game.players.players()[i]@ =~= dealt[i]@);
            }
            let hs = game.hands();
            assert forall|i: int| 0 <= i < N_PLAYERS implies (#[trigger] hs[i]).len() == N_INITIAL_CARDS by {
                assert(hs[i] == game.players.players()[i]@);
            }
            reveal_with_fuel(held, 5);
            assert(hs.drop_last().drop_last().drop_last().drop_last().len() == 0);
            assert(held(hs) == 28);
        }
        game
    }

    /// Plays one turn. First the action of the card played last is carried
    /// out: a skip passes over the next player, a reverse turns the order
    /// around, a draw two or wild draw four makes the next player take that
    /// many cards. Then the next player plays a legal card from the hand; if
    /// there is none, draws one card and plays it if it is legal, else keeps
    /// it. A played card goes on the discard pile and becomes the top card; the
    /// player wins on playing the last card.
    pub fn play_turn(&mut self) -> (r: Result<TurnReport, InvariantViolation>)
        requires
            old(self).wf(),
        ensures
            final(self).wf(),
            final(self).card_count() == old(self).card_count(),
            old(self).next_error() is None ==> r is Ok,
            r matches Err(e) ==> old(self).next_error() == Some(e),
            r matches Ok(report) ==> {
                let hand = old(self).hands()[old(self).mover()];
                let top = old(self).dealer_state().top();
                &&& report.previous == old(self).last_play()
                &&& final(self).last_play() == report.play
                &&& final(self).turns() == after_action(old(self).turns(), old(self).last_play()).advanced()
                &&& report.turn as nat == final(self).turns().turn
                &&& (report.from_hand is None <==> legal_cards(hand, top).len() == 0)
                &&& report.from_hand matches Some(c) ==> {
                    &&& exists|i: int| 0 <= i < legal_cards(hand, top).len() && played_as(#[trigger] legal_cards(hand, top)[i], c)
                    &&& report.drawn is None
                    &&& report.play == report.from_hand
                }
                &&& report.from_hand is None ==> {
                    &&& report.drawn matches Some(d) && {
                        &&& (report.play is None <==> legal_cards(seq![d], top).len() == 0)
                        &&& report.play matches Some(c) ==> exists|i: int|
                            0 <= i < legal_cards(seq![d], top).len() && played_as(#[trigger] legal_cards(seq![d], top)[i], c)
                    }
                }
                &&& report.play matches Some(c) ==> {
                    &&& c.color is Some
                    &&& final(self).dealer_state().top() == c
                }
                &&& report.winner <==> (report.play is Some && final(self).hands()[old(self).mover()].len() == 0)
            },
    {
        let ghost old_hands = self.hands();
        let ghost mover = self.mover();
        let previous = self.play;
        let mut action = Action::Nothing;
        proof {
            self.players.lemma_positions();
        }

        // if an action card was played, carry out its action
        if let Some(card) = previous {
            match card.symbol {
                Symbol::Skip => {
                    if self.players.turn() == Turn::MAX {
                        return Err(InvariantViolation::TurnLimit);
                    }
                    let name = self.players.skip();
                    action = Action::Skipped(name);
                },
                Symbol::Reverse => {
                    self.players.reverse();
                    action = Action::Reversed;
                },
                Symbol::Draw2 | Symbol::WildDraw4 => {
                    let n: usize = match card.symbol {
                        Symbol::Draw2 => 2,
                        _ => 4,
                    };
                    if self.players.turn() == Turn::MAX {
                        return Err(InvariantViolation::TurnLimit);
                    }
                    if !can_draw(&self.dealer, n) {
                        return Err(InvariantViolation::CardsExhausted);
                    }
                    let ghost target = self.turns().advanced().current as int;
                    let ghost hands_before = self.hands();
                    let ghost players_before = self.players.players();
                    let ghost dealer_before = self.dealer@;
                    let player = self.players.next();
                    proof {
                        lemma_held_update(hands_before, target, (*final(player))@);
                        lemma_hands_update(players_before, target, *final(player));
                    }
                    let cards = self.dealer.draw(n);
                    proof {
                        lemma_drew_total(dealer_before, self.dealer@, n as nat, cards@);
                    }
                    player.take_cards(cards);
                    action = Action::Took(player.name(), n);
                },
                _ => {},
            }
        }
        proof {
            self.players.lemma_positions();
            lemma_advance_moves(old(self).turns().advanced());
            assert(self.turns() == after_action(old(self).turns(), old(self).last_play()));
            assert(self.hands()[mover] == old_hands[mover]);
            assert(self.dealer@.top() == old(self).dealer_state().top());
        }

        // the next player's turn
        let turn = self.players.turn();
        if turn == Turn::MAX {
            return Err(InvariantViolation::TurnLimit);
        }
        let top_card = self.dealer.top_card();
        let ghost hands_before = self.hands();
        let ghost players_before = self.players.players();
        let player = self.players.next();
        proof {
            lemma_held_update(hands_before, mover, (*final(player))@);
            lemma_hands_update(players_before, mover, *final(player));
        }
        if player.hand().len() == 0 {
            return Err(InvariantViolation::EmptyHand);
        }
        let ghost hand = player@;
        let from_hand = player.play_from_hand(&top_card);
        proof {
            if let Some(c) = from_hand {
                lemma_played_colored(hand, top_card, c);
            }
        }
        let mut play = from_hand;
        let mut drawn: Option<Card> = None;

        // if no card is played, draw a new card and try to play it
        if play.is_none() {
            if !can_draw(&self.dealer, 1) {
                return Err(InvariantViolation::CardsExhausted);
            }
            let ghost dealer_mid = self.dealer@;
            let new_card = self.dealer.draw(1);
            proof {
                lemma_drew_total(dealer_mid, self.dealer@, 1, new_card@);
                assert(new_card@ =~= seq![new_card@[0]]);
            }
            drawn = Some(new_card[0]);
            let ghost fresh = new_card@;
            play = player.play_from_cards(&top_card, new_card.clone());
            proof {
                if let Some(c) = play {
                    lemma_played_colored(fresh, top_card, c);
                }
            }
            // a card that is not played goes into the hand
            if play.is_none() {
                player.take_cards(new_card);
            }
        }

        // a played card is discarded
        let mut winner = false;
        let mut uno = false;
        if let Some(card) = play {
            self.dealer.discard(card);
            winner = game_over(player);
            uno = player.hand().len() == 1;
        }
        let name = player.name();
        self.play = play;
        Ok(TurnReport { previous, action, turn: turn + 1, player: name, from_hand, drawn, play, uno, winner })
    }
}

/// After four hands of seven cards are dealt from the top of a full deck,
/// the draw pile still holds a card that is not wild.
proof fn lemma_opening_card_left(full: Seq<Card>, rest: Seq<Card>)
    requires
        full.to_multiset() == standard_deck().to_multiset(),
        full.len() == N_CARDS,
        all_valid_in_deck(full),
        rest == full.subrange(0, 80),
    ensures
        exists|j: int| 0 <= j < rest.len() && !(#[trigger] rest[j]).wild(),
{
    let wild = Card { symbol: Symbol::Wild, color: None };
    let wild4 = Card { symbol: Symbol::WildDraw4, color: None };
    if !exists|j: int| 0 <= j < rest.len() && !(#[trigger] rest[j]).wild() {
        assert forall|i: int| 0 <= i < rest.len() implies #[trigger] rest[i] == wild || rest[i] == wild4 by {
            assert(rest[i] == full[i]);
            assert(full[i].valid_in_deck());
        }
        lemma_count_two(rest, wild, wild4);
        let tail = full.subrange(80, 108);
        assert(full =~= rest + tail);
        vstd::seq_lib::lemma_multiset_commutative(rest, tail);
        lemma_standard_deck_wild_count();
        assert(false);
    }
}

} // verus!
