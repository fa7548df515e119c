//! The dealer: the draw pile, the discard pile, and the moves between them.
use vstd::prelude::*;

use crate::card::{generate_deck, returned_to_deck, standard_deck, lemma_standard_deck_valid, Card, Deck, N_CARDS};
use crate::random::randomly_shuffle_cards;

verus! {

broadcast use vstd::seq_lib::group_to_multiset_ensures;

/// The abstract state of a [`Dealer`]. The top of the draw pile is the end
/// of `deck`; the top card of the discard pile is the end of `pile`.
pub struct DealerView {
    pub deck: Seq<Card>,
    pub pile: Seq<Card>,
}

pub open spec fn all_valid_in_deck(cards: Seq<Card>) -> bool {
    forall|i: int| 0 <= i < cards.len() ==> (#[trigger] cards[i]).valid_in_deck()
}

pub open spec fn all_colored(cards: Seq<Card>) -> bool {
    forall|i: int| 0 <= i < cards.len() ==> (#[trigger] cards[i]).color is Some
}

/// The cards of a discard pile below its top card, as they go back into the
/// draw pile.
pub open spec fn recycled(pile: Seq<Card>) -> Seq<Card> {
    pile.drop_last().map_values(returned_to_deck())
}

impl DealerView {
    /// Cards in the draw pile lie as in a fresh deck; played cards carry a color.
    pub open spec fn wf(self) -> bool {
        &&& all_valid_in_deck(self.deck)
        &&& all_colored(self.pile)
    }

    /// Number of cards held by the dealer.
    pub open spec fn total(self) -> nat {
        self.deck.len() + self.pile.len()
    }

    pub open spec fn top(self) -> Card {
        self.pile.last()
    }
}

/// `post` is `pre` after `n` cards were drawn, and `cards` are those cards.
/// The cards come from the top of the draw pile; when it holds fewer than `n`,
/// all of it is taken, the discard pile below its top card is recycled into
/// the draw pile, and the rest are drawn from there.
pub open spec fn drew(pre: DealerView, post: DealerView, n: nat, cards: Seq<Card>) -> bool {
    let d = pre.deck.len();
    if n <= d {
        &&& cards == pre.deck.subrange(d - n, d as int)
        &&& post.deck == pre.deck.subrange(0, d - n)
        &&& post.pile == pre.pile
    } else {
        &&& cards.len() == n
        &&& cards.subrange(0, d as int) == pre.deck
        &&& post.pile == seq![pre.top()]
        &&& (post.deck + cards.subrange(d as int, n as int)).to_multiset() == recycled(
            pre.pile,
        ).to_multiset()
    }
}

/// `post` is `pre` after `card` was put on the discard pile.
pub open spec fn discarded(pre: DealerView, post: DealerView, card: Card) -> bool {
    &&& post.deck == pre.deck
    &&& post.pile == pre.pile.push(card)
}

/// `post` is `pre` after the discard pile below its top card was shuffled and
/// put under the draw pile.
pub open spec fn recycled_into(pre: DealerView, post: DealerView) -> bool {
    let k = pre.pile.len() - 1;
    &&& post.pile == seq![pre.top()]
    &&& post.deck.len() == pre.deck.len() + k
    &&& post.deck.subrange(k, post.deck.len() as int) == pre.deck
    &&& post.deck.subrange(0, k).to_multiset() == recycled(pre.pile).to_multiset()
}

/// `post` is `pre` after the opening card was turned: the topmost card of
/// the draw pile that is not wild went onto the discard pile, and the wild
/// cards above it went, in their order and without color, under the draw pile.
pub open spec fn flipped(pre: DealerView, post: DealerView) -> bool {
    exists|j: int|
        {
            &&& 0 <= j < pre.deck.len()
            &&& !(#[trigger] pre.deck[j]).wild()
            &&& forall|m: int| j < m < pre.deck.len() ==> (#[trigger] pre.deck[m]).wild()
            &&& post.pile == pre.pile.push(pre.deck[j])
            &&& post.deck == pre.deck.subrange(j + 1, pre.deck.len() as int).map_values(
                returned_to_deck(),
            ) + pre.deck.subrange(0, j)
        }
}

/// `post` is `pre` after one hand of `n` cards was drawn for each element of
/// `hands`, in order.
pub open spec fn drew_hands(pre: DealerView, post: DealerView, n: nat, hands: Seq<Seq<Card>>) -> bool {
    exists|states: Seq<DealerView>|
        {
            &&& states.len() == hands.len() + 1
            &&& states[0] == pre
            &&& states.last() == post
            &&& forall|i: int| 0 <= i < hands.len() ==> drew(#[trigger] states[i], states[i + 1], n, hands[i])
        }
}

/// A draw keeps the cards: those drawn plus those left are those held before.
pub proof fn lemma_drew_total(pre: DealerView, post: DealerView, n: nat, cards: Seq<Card>)
    requires
        drew(pre, post, n, cards),
        n <= pre.deck.len() || pre.pile.len() > 0,
    ensures
        cards.len() == n,
        post.total() + n == pre.total(),
{
    let d = pre.deck.len();
    if n > d {
        let rest = cards.subrange(d as int, n as int);
        assert((post.deck + rest).to_multiset().len() == (post.deck + rest).len());
        assert(recycled(pre.pile).to_multiset().len() == recycled(pre.pile).len());
    }
}

/// One move between `pre` and `post`, where `pre_held` and `post_held` count
/// the cards in the players' hands: a draw into a hand, a discard from a hand,
/// or a recycling of the discard pile, each as the dealer's operation makes it.
pub open spec fn dealer_step(pre: DealerView, pre_held: nat, post: DealerView, post_held: nat) -> bool {
    ||| exists|n: nat, cards: Seq<Card>|
        {
            &&& #[trigger] drew(pre, post, n, cards)
            &&& n + 1 < pre.total()
            &&& post_held == pre_held + cards.len()
        }
    ||| exists|card: Card|
        {
            &&& #[trigger] discarded(pre, post, card)
            &&& post_held + 1 == pre_held
        }
    ||| {
        &&& recycled_into(pre, post)
        &&& pre.pile.len() > 0
        &&& post_held == pre_held
    }
}

/// A single move keeps the number of cards.
pub proof fn lemma_step_total(pre: DealerView, pre_held: nat, post: DealerView, post_held: nat)
    requires
        dealer_step(pre, pre_held, post, post_held),
    ensures
        post.total() + post_held == pre.total() + pre_held,
{
    if exists|n: nat, cards: Seq<Card>| #[trigger] drew(pre, post, n, cards) && n + 1 < pre.total() && post_held == pre_held + cards.len() {
        let (n, cards) = choose|n: nat, cards: Seq<Card>| #[trigger] drew(pre, post, n, cards) && n + 1 < pre.total() && post_held == pre_held + cards.len();
        lemma_drew_total(pre, post, n, cards);
    }
}

/// Cards are neither made nor lost: along any sequence of draws, discards and
/// recycles, the cards in the draw pile, the discard pile and the hands add up
/// to the same number, which is the size of the deck when the game starts
/// with a full draw pile and nothing elsewhere.
pub proof fn lemma_conservation(dealers: Seq<DealerView>, held: Seq<nat>)
    requires
        dealers.len() == held.len(),
        dealers.len() > 0,
        forall|i: int| 0 <= i < dealers.len() - 1 ==> dealer_step(#[trigger] dealers[i], held[i], dealers[i + 1], held[i + 1]),
    ensures
        forall|i: int| 0 <= i < dealers.len() ==> (#[trigger] dealers[i]).total() + held[i] == dealers[0].total() + held[0],
        dealers[0].total() + held[0] == N_CARDS ==> forall|i: int| 0 <= i < dealers.len() ==> (#[trigger] dealers[i]).total() + held[i] == N_CARDS,
{
    assert forall|i: int| 0 <= i < dealers.len() implies (#[trigger] dealers[i]).total() + held[i] == dealers[0].total() + held[0] by {
        lemma_conservation_upto(dealers, held, i);
    }
}

proof fn lemma_conservation_upto(dealers: Seq<DealerView>, held: Seq<nat>, k: int)
    requires
        dealers.len() == held.len(),
        0 <= k < dealers.len(),
        forall|i: int| 0 <= i < dealers.len() - 1 ==> dealer_step(#[trigger] dealers[i], held[i], dealers[i + 1], held[i + 1]),
    ensures
        dealers[k].total() + held[k] == dealers[0].total() + held[0],
    decreases k,
{
    if k > 0 {
        lemma_conservation_upto(dealers, held, k - 1);
        lemma_step_total(dealers[k - 1], held[k - 1], dealers[k], held[k]);
    }
}

/// Recycling keeps the top card of the discard pile, leaves it as the only
/// card there, and adds the other cards of the pile to the draw pile.
pub proof fn lemma_recycle_keeps_top(pre: DealerView, post: DealerView)
    requires
        recycled_into(pre, post),
        pre.pile.len() > 0,
    ensures
        post.top() == pre.top(),
        post.pile.len() == 1,
        post.deck.len() == pre.deck.len() + pre.pile.len() - 1,
{
}

/// Equal multisets stay equal when the same function is applied to each element.
pub proof fn lemma_map_to_multiset(s1: Seq<Card>, s2: Seq<Card>, f: spec_fn(Card) -> Card)
    requires
        s1.to_multiset() == s2.to_multiset(),
    ensures
        s1.map_values(f).to_multiset() == s2.map_values(f).to_multiset(),
    decreases s1.len(),
{
    if s1.len() == 0 {
        assert(s1.to_multiset().len() == 0);
        assert(s2.to_multiset().len() == 0);
        assert(s2.len() == 0);
        assert(s1.map_values(f) =~= s2.map_values(f));
    } else {
        let a = s1.last();
        let s1p = s1.drop_last();
        assert(s1 =~= s1p.push(a));
        assert(s2.to_multiset().count(a) > 0);
        assert(s2.contains(a));
        let i = choose|i: int| 0 <= i < s2.len() && s2[i] == a;
        let s2p = s2.remove(i);
        assert(s2p.to_multiset() =~= s1p.to_multiset());
        lemma_map_to_multiset(s1p, s2p, f);
        assert(s2p.map_values(f) =~= s2.map_values(f).remove(i));
        assert(s1.map_values(f) =~= s1p.map_values(f).push(f(a)));
        assert(s2.map_values(f).to_multiset().count(f(a)) > 0) by {
            assert(s2.map_values(f)[i] == f(a));
            assert(s2.map_values(f).contains(f(a)));
        }
        assert(s2.map_values(f).to_multiset() =~= s2.map_values(f).remove(i).to_multiset().insert(f(a)));
    }
}

/// A sequence with the same cards as one of cards that may lie in the draw
/// pile holds only such cards.
pub proof fn lemma_multiset_valid_in_deck(s1: Seq<Card>, s2: Seq<Card>)
    requires
        s1.to_multiset() == s2.to_multiset(),
        all_valid_in_deck(s2),
    ensures
        all_valid_in_deck(s1),
{
    assert forall|i: int| 0 <= i < s1.len() implies (#[trigger] s1[i]).valid_in_deck() by {
        assert(s1.contains(s1[i]));
        assert(s2.to_multiset().count(s1[i]) > 0);
        assert(s2.contains(s1[i]));
    }
}

/// The recycled cards of a pile of played cards may lie in the draw pile.
pub proof fn lemma_recycled_valid(pile: Seq<Card>)
    requires
        all_colored(pile),
        pile.len() > 0,
    ensures
        all_valid_in_deck(recycled(pile)),
{
    assert forall|i: int| 0 <= i < recycled(pile).len() implies (#[trigger] recycled(pile)[i]).valid_in_deck() by {
        assert(pile.drop_last()[i] == pile[i]);
    }
}

/// Owns the draw pile (`deck`) and the discard pile (`pile`).
#[derive(Debug)]
pub struct Dealer {
    deck: Deck,
    pile: Vec<Card>,
}

impl View for Dealer {
    type V = DealerView;

    closed spec fn view(&self) -> DealerView {
        DealerView { deck: self.deck@, pile: self.pile@ }
    }
}

impl Dealer {
    /// A dealer with a freshly shuffled standard deck and an empty discard pile.
    pub fn new() -> (r: Self)
        ensures
            r@.wf(),
            r@.deck.len() == N_CARDS,
            r@.deck.to_multiset() == standard_deck().to_multiset(),
            r@.pile.len() == 0,
    {
        let deck = generate_deck();
        let pile: Vec<Card> = Vec::with_capacity(N_CARDS);
        proof {
            lemma_standard_deck_valid();
            lemma_multiset_valid_in_deck(deck@, standard_deck());
        }
        Self { deck, pile }
    }

    /// A dealer with the given draw pile and an empty discard pile.
    pub fn with_deck(deck: Deck) -> (r: Self)
        ensures
            r@.deck == deck@,
            r@.pile.len() == 0,
    {
        Self { deck, pile: Vec::new() }
    }

    /// The draw pile, bottom first.
    pub fn deck(&self) -> (r: &Deck)
        ensures
            r@ == self@.deck,
    {
        &self.deck
    }

    /// The discard pile, bottom first.
    pub fn pile(&self) -> (r: &Vec<Card>)
        ensures
            r@ == self@.pile,
    {
        &self.pile
    }

    /// Draws `n_cards` cards from the draw pile, without recycling.
    pub fn draw_from_deck(&mut self, n_cards: usize) -> (r: Vec<Card>)
        requires
            n_cards <= old(self)@.deck.len(),
        ensures
            drew(old(self)@, final(self)@, n_cards as nat, r@),
    {
        let n_available = self.deck.len();
        let start = n_available - n_cards;
        let mut cards: Vec<Card> = Vec::with_capacity(n_cards);
        let mut i: usize = start;
        while i < n_available
            invariant
                start <= i <= n_available,
                n_available == self.deck@.len(),
                self@ == old(self)@,
                cards@ == self.deck@.subrange(start as int, i as int),
            decreases n_available - i,
        {
            cards.push(self.deck[i]);
            assert(self.deck@.subrange(start as int, i + 1) =~= self.deck@.subrange(start as int, i as int).push(self.deck@[i as int]));
            i = i + 1;
        }
        self.deck.truncate(start);
        cards
    }

    /// Puts `cards` under the draw pile, one by one, wild cards without color.
    pub fn refill_deck(&mut self, cards: Vec<Card>)
        ensures
            final(self)@.deck == cards@.map_values(returned_to_deck()).reverse() + old(self)@.deck,
            final(self)@.pile == old(self)@.pile,
    {
        let mut i: usize = 0;
        while i < cards.len()
            invariant
                i <= cards@.len(),
                self@.deck == cards@.take(i as int).map_values(returned_to_deck()).reverse() + old(self)@.deck,
                self@.pile == old(self)@.pile,
            decreases cards@.len() - i,
        {
            let mut card = cards[i];
            // reset color of wild cards
            if card.is_wild() {
                card.color = None;
            }
            assert(card == returned_to_deck()(cards@[i as int]));
            self.deck.push_front(card);
            assert(cards@.take(i + 1).map_values(returned_to_deck()).reverse() =~= seq![card] + cards@.take(i as int).map_values(returned_to_deck()).reverse());
            i = i + 1;
        }
        assert(cards@.take(i as int) =~= cards@);
    }

    /// Shuffles the discard pile below its top card and puts it under the
    /// draw pile, wild cards without color.
    pub fn recycle_pile(&mut self)
        requires
            old(self)@.pile.len() > 0,
        ensures
            recycled_into(old(self)@, final(self)@),
            old(self)@.wf() ==> final(self)@.wf(),
    {
        let end = self.pile.len() - 1;
        // keep top card
        let mut cards = self.pile.split_off(end);
        core::mem::swap(&mut cards, &mut self.pile);
        assert(cards@ == old(self)@.pile.drop_last());
        let ghost before = cards@;
        cards = randomly_shuffle_cards(cards);
        self.refill_deck(cards);
        proof {
            let k = end as int;
            let added = cards@.map_values(returned_to_deck()).reverse();
            assert(self@.deck.subrange(0, k) =~= added);
            assert(self@.deck.subrange(k, self@.deck.len() as int) =~= old(self)@.deck);
            lemma_map_to_multiset(cards@, before, returned_to_deck());
            cards@.map_values(returned_to_deck()).lemma_reverse_to_multiset();
            assert(recycled(old(self)@.pile) == before.map_values(returned_to_deck()));
            if old(self)@.wf() {
                lemma_recycled_valid(old(self)@.pile);
                lemma_multiset_valid_in_deck(added, recycled(old(self)@.pile));
                assert(self@.deck =~= added + old(self)@.deck);
                assert(self@.pile =~= seq![old(self)@.pile.last()]);
            }
        }
    }

    /// Draws `n_cards` cards, recycling the discard pile when the draw pile
    /// runs out. The discard pile keeps its top card.
    pub fn draw(&mut self, n_cards: usize) -> (r: Vec<Card>)
        requires
            n_cards + 1 < old(self)@.deck.len() + old(self)@.pile.len(),
        ensures
            drew(old(self)@, final(self)@, n_cards as nat, r@),
            old(self)@.wf() ==> final(self)@.wf() && all_valid_in_deck(r@),
    {
        let n_available = self.deck.len();
        if n_cards <= n_available {
            // if enough cards are in the deck, simply draw cards
            let cards = self.draw_from_deck(n_cards);
            proof {
                if old(self)@.wf() {
                    assert forall|i: int| 0 <= i < cards@.len() implies (#[trigger] cards@[i]).valid_in_deck() by {
                        assert(cards@[i] == old(self)@.deck[n_available - n_cards + i]);
                    }
                }
            }
            cards
        } else {
            // otherwise, draw available cards, recycle pile and draw remaining cards
            let mut cards: Vec<Card> = Vec::with_capacity(n_cards);
            let mut first = self.draw_from_deck(n_available);
            cards.append(&mut first);
            let ghost mid = self@;
            self.recycle_pile();
            let ghost recycled_state = self@;
            let n_remaining = n_cards - n_available;
            let mut rest = self.draw_from_deck(n_remaining);
            let ghost rest_cards = rest@;
            cards.append(&mut rest);
            proof {
                let d = n_available as int;
                assert(cards@.subrange(0, d) =~= old(self)@.deck);
                assert(cards@.subrange(d, n_cards as int) =~= rest_cards);
                assert(mid.pile == old(self)@.pile);
                assert(mid.deck.len() == 0);
                assert(self@.deck + rest_cards =~= recycled_state.deck);
                assert(recycled_state.deck =~= recycled_state.deck.subrange(0, recycled_state.deck.len() as int));
                if old(self)@.wf() {
                    assert(mid.wf());
                    assert(recycled_state.wf());
                    assert forall|i: int| 0 <= i < cards@.len() implies (#[trigger] cards@[i]).valid_in_deck() by {
                        if i < d {
                            assert(cards@[i] == cards@.subrange(0, d)[i]);
                        } else {
                            assert(cards@[i] == rest_cards[i - d]);
                            let k = recycled_state.deck.len() - n_remaining;
                            assert(rest_cards[i - d] == recycled_state.deck[k + i - d]);
                        }
                    }
                    assert forall|i: int| 0 <= i < self@.deck.len() implies (#[trigger] self@.deck[i]).valid_in_deck() by {
                        assert(self@.deck[i] == recycled_state.deck[i]);
                    }
                }
            }
            cards
        }
    }

    /// Turns the opening card: draws until a card that is not wild comes up
    /// and puts it on the discard pile; wild cards drawn on the way go back
    /// under the draw pile.
    pub fn flip_first_card(&mut self)
        requires
            old(self)@.wf(),
            old(self)@.total() > 2,
            exists|j: int| 0 <= j < old(self)@.deck.len() && !(#[trigger] old(self)@.deck[j]).wild(),
        ensures
            flipped(old(self)@, final(self)@),
            final(self)@.wf(),
    {
        let ghost d = old(self)@.deck;
        let ghost len = d.len() as int;
        let ghost mut k: int = len;
        let drawn = self.draw(1);
        let mut card = drawn[0];
        proof {
            assert(d.subrange(0, k)[k - 1] == old(self)@.deck[len - 1]);
            assert(self@.deck =~= d.subrange(k, len).map_values(returned_to_deck()) + d.subrange(0, k - 1));
        }
        // a wild card is returned to the deck and a new card is drawn
        while card.is_wild()
            invariant
                d == old(self)@.deck,
                len == d.len(),
                old(self)@.total() > 2,
                self@.wf(),
                0 < k <= len,
                card == d[k - 1],
                self@.pile == old(self)@.pile,
                self@.total() + 1 == old(self)@.total(),
                self@.deck == d.subrange(k, len).map_values(returned_to_deck()) + d.subrange(0, k - 1),
                forall|m: int| k <= m < len ==> (#[trigger] d[m]).wild(),
                exists|j: int| 0 <= j < k && !(#[trigger] d[j]).wild(),
            decreases k,
        {
            let ghost before = self@.deck;
            let returned = vec![card];
            assert(returned@ =~= seq![card]);
            self.refill_deck(returned);
            proof {
                assert(returned@.map_values(returned_to_deck()).reverse() =~= seq![card.returned_to_deck()]);
                assert(self@.deck =~= seq![card.returned_to_deck()] + before);
                assert(before == d.subrange(k, len).map_values(returned_to_deck()) + d.subrange(0, k - 1));
                assert forall|i: int| 1 <= i < len - k + 1 implies #[trigger] d.subrange(k - 1, len).map_values(returned_to_deck())[i] == d.subrange(k, len).map_values(returned_to_deck())[i - 1] by {
                    assert(d.subrange(k - 1, len)[i] == d.subrange(k, len)[i - 1]);
                }
                assert(d.subrange(k - 1, len).map_values(returned_to_deck()) =~= seq![card.returned_to_deck()] + d.subrange(k, len).map_values(returned_to_deck()));
                assert(self@.deck =~= d.subrange(k - 1, len).map_values(returned_to_deck()) + d.subrange(0, k - 1));
                k = k - 1;
            }
            let drawn = self.draw(1);
            card = drawn[0];
            proof {
                assert(d.subrange(0, k)[k - 1] == d[k - 1]);
                assert(self@.deck =~= d.subrange(k, len).map_values(returned_to_deck()) + d.subrange(0, k - 1));
            }
        }
        self.discard(card);
        proof {
            assert(self@.pile == old(self)@.pile.push(d[k - 1]));
        }
    }

    /// Draws a hand of `n_cards` cards for each of `n_players` players, as
    /// that many calls of [`Dealer::draw`].
    pub fn draw_hands(&mut self, n_players: usize, n_cards: usize) -> (r: Vec<Vec<Card>>)
        requires
            n_players * n_cards + 1 < old(self)@.total(),
        ensures
            r@.len() == n_players,
            forall|i: int| 0 <= i < n_players ==> (#[trigger] r@[i])@.len() == n_cards,
            drew_hands(old(self)@, final(self)@, n_cards as nat, r@.map_values(|h: Vec<Card>| h@)),
            final(self)@.total() + n_players * n_cards == old(self)@.total(),
            old(self)@.wf() ==> final(self)@.wf(),
            old(self)@.wf() ==> forall|i: int| 0 <= i < n_players ==> all_valid_in_deck(#[trigger] r@[i]@),
            n_players * n_cards <= old(self)@.deck.len() ==> {
                &&& final(self)@.deck == old(self)@.deck.subrange(0, old(self)@.deck.len() - n_players * n_cards)
                &&& final(self)@.pile == old(self)@.pile
            },
    {
        let mut hands: Vec<Vec<Card>> = Vec::with_capacity(n_players);
        let ghost mut states: Seq<DealerView> = seq![self@];
        let mut i: usize = 0;
        while i < n_players
            invariant
                i <= n_players,
                n_players * n_cards + 1 < old(self)@.total(),
                hands@.len() == i,
                forall|j: int| 0 <= j < i ==> (#[trigger] hands@[j])@.len() == n_cards,
                states.len() == i + 1,
                states[0] == old(self)@,
                states.last() == self@,
                forall|j: int| 0 <= j < i ==> drew(#[trigger] states[j], states[j + 1], n_cards as nat, hands@[j]@),
                self@.total() + i * n_cards == old(self)@.total(),
                old(self)@.wf() ==> self@.wf(),
                old(self)@.wf() ==> forall|j: int| 0 <= j < i ==> all_valid_in_deck(#[trigger] hands@[j]@),
                n_players * n_cards <= old(self)@.deck.len() ==> {
                    &&& i * n_cards <= n_players * n_cards
                    &&& self@.deck == old(self)@.deck.subrange(0, old(self)@.deck.len() - i * n_cards)
                    &&& self@.pile == old(self)@.pile
                },
            decreases n_players - i,
        {
            proof {
                assert(i * n_cards + n_cards <= n_players * n_cards) by (nonlinear_arith)
                    requires i < n_players;
            }
            let hand = self.draw(n_cards);
            proof {
                lemma_drew_total(states.last(), self@, n_cards as nat, hand@);
                states = states.push(self@);
                assert((i + 1) * n_cards == i * n_cards + n_cards) by (nonlinear_arith);
                if n_players * n_cards <= old(self)@.deck.len() {
                    assert(self@.deck =~= old(self)@.deck.subrange(0, old(self)@.deck.len() - (i + 1) * n_cards));
                }
            }
            hands.push(hand);
            i = i + 1;
        }
        proof {
            let hs = hands@.map_values(|h: Vec<Card>| h@);
            assert forall|j: int| 0 <= j < hs.len() implies drew(#[trigger] states[j], states[j + 1], n_cards as nat, hs[j]) by {
                assert(hs[j] == hands@[j]@);
            }
        }
        hands
    }

    /// Puts `card` on the discard pile.
    pub fn discard(&mut self, card: Card)
        requires
            card.color is Some,
        ensures
            discarded(old(self)@, final(self)@, card),
            old(self)@.wf() ==> final(self)@.wf(),
    {
        self.pile.push(card);
    }

    /// The top card of the discard pile.
    pub fn top_card(&self) -> (r: Card)
        requires
            self@.pile.len() > 0,
        ensures
            r == self@.top(),
            self@.wf() ==> r.color is Some,
    {
        self.pile[self.pile.len() - 1]
    }
}

} // verus!
