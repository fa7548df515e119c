//! Which cards of a hand may be played on the current top card.
use vstd::prelude::*;

use crate::card::Card;
use itertools::Itertools;

verus! {

/// A card other than a wild draw four that may be played on `top`: any wild
/// card, or one that shares the top card's color or symbol.
pub open spec fn plays_on(card: Card, top: Card) -> bool {
    !card.wild_draw_4() && (card.wild() || card.color == top.color || card.symbol == top.symbol)
}

pub open spec fn plays_on_top(top: Card) -> spec_fn(Card) -> bool {
    |c: Card| plays_on(c, top)
}

pub open spec fn is_wild_draw_4() -> spec_fn(Card) -> bool {
    |c: Card| c.wild_draw_4()
}

/// Some card other than a wild draw four shares the top card's color.
pub open spec fn color_matched(cards: Seq<Card>, top: Card) -> bool {
    exists|i: int| 0 <= i < cards.len() && !(#[trigger] cards[i]).wild_draw_4() && cards[i].color == top.color
}

/// The legal cards, in their order in `cards`: those that play on `top`,
/// followed by the wild draw fours, which count only when no other card
/// matches the top card's color.
pub open spec fn legal_cards(cards: Seq<Card>, top: Card) -> Seq<Card> {
    let plain = cards.filter(plays_on_top(top));
    if color_matched(cards, top) {
        plain
    } else {
        plain + cards.filter(is_wild_draw_4())
    }
}

/// The cards of `cards` that may be played on `top_card`.
pub fn filter_legal_cards(cards: Vec<Card>, top_card: Card) -> (r: Vec<Card>)
    requires
        cards@.len() > 0,
        top_card.color is Some,
    ensures
        r@ == legal_cards(cards@, top_card),
{
    let n = cards.len();
    let mut legal_cards: Vec<Card> = Vec::with_capacity(n);
    let mut wild_draw_4s: Vec<Card> = Vec::with_capacity(n);
    let mut has_color_match = false;

    let mut i: usize = 0;
    while i < n
        invariant
            n == cards@.len(),
            i <= n,
            legal_cards@ == cards@.take(i as int).filter(plays_on_top(top_card)),
            wild_draw_4s@ == cards@.take(i as int).filter(is_wild_draw_4()),
            has_color_match == color_matched(cards@.take(i as int), top_card),
        decreases n - i,
    {
        let card = cards[i];
        proof {
            reveal(Seq::filter);
            assert(cards@.take(i + 1).drop_last() =~= cards@.take(i as int));
            assert(cards@.take(i + 1).last() == card);
            assert(plays_on_top(top_card)(card) == plays_on(card, top_card));
            assert(is_wild_draw_4()(card) == card.wild_draw_4());
            if color_matched(cards@.take(i + 1), top_card) {
                let j = choose|j: int|
                    0 <= j < i + 1 && !(#[trigger] cards@.take(i + 1)[j]).wild_draw_4()
                        && cards@.take(i + 1)[j].color == top_card.color;
                if j < i {
                    assert(cards@.take(i as int)[j] == cards@.take(i + 1)[j]);
                }
            }
            if color_matched(cards@.take(i as int), top_card) {
                let j = choose|j: int|
                    0 <= j < i && !(#[trigger] cards@.take(i as int)[j]).wild_draw_4()
                        && cards@.take(i as int)[j].color == top_card.color;
                assert(cards@.take(i + 1)[j] == cards@.take(i as int)[j]);
            }
            if !card.wild_draw_4() && card.color == top_card.color {
                assert(cards@.take(i + 1)[i as int] == card);
            }
        }
        if card.is_wild_draw_4() {
            wild_draw_4s.push(card);
        } else {
            let color_match = card.color == top_card.color;
            let symbol_match = card.symbol == top_card.symbol;
            if card.is_wild() || color_match || symbol_match {
                legal_cards.push(card);
            }
            if color_match {
                has_color_match = true;
            }
        }
        i = i + 1;
    }
    proof {
        assert(cards@.take(n as int) =~= cards@);
    }
    if !has_color_match {
        legal_cards.append(&mut wild_draw_4s);
    }
    legal_cards
}

/// Every element of a filtered sequence comes from the sequence.
pub proof fn lemma_filter_subset(s: Seq<Card>, p: spec_fn(Card) -> bool)
    ensures
        forall|i: int| 0 <= i < s.filter(p).len() ==> s.contains(#[trigger] s.filter(p)[i]),
    decreases s.len(),
{
    reveal(Seq::filter);
    if s.len() > 0 {
        let t = s.drop_last();
        lemma_filter_subset(t, p);
        assert forall|i: int| 0 <= i < s.filter(p).len() implies s.contains(#[trigger] s.filter(p)[i]) by {
            if i < t.filter(p).len() {
                assert(s.filter(p)[i] == t.filter(p)[i]);
                let j = choose|j: int| 0 <= j < t.len() && t[j] == t.filter(p)[i];
                assert(s[j] == t[j]);
            } else {
                assert(s.filter(p)[i] == s[s.len() - 1]);
            }
        }
    }
}

/// Every legal card is one of the candidates.
pub proof fn lemma_legal_from_candidates(cards: Seq<Card>, top: Card)
    ensures
        forall|i: int| 0 <= i < legal_cards(cards, top).len() ==> cards.contains(#[trigger] legal_cards(cards, top)[i]),
{
    lemma_filter_subset(cards, plays_on_top(top));
    lemma_filter_subset(cards, is_wild_draw_4());
    let plain = cards.filter(plays_on_top(top));
    assert forall|i: int| 0 <= i < legal_cards(cards, top).len() implies cards.contains(#[trigger] legal_cards(cards, top)[i]) by {
        if i < plain.len() {
            assert(legal_cards(cards, top)[i] == plain[i]);
        } else {
            assert(legal_cards(cards, top)[i] == cards.filter(is_wild_draw_4())[i - plain.len()]);
        }
    }
}

/// `cards` without repeated values: the first occurrence of each value, in order.
pub open spec fn unique_cards(cards: Seq<Card>) -> Seq<Card>
    decreases cards.len(),
{
    if cards.len() == 0 {
        cards
    } else {
        let rest = unique_cards(cards.drop_last());
        if cards.drop_last().contains(cards.last()) {
            rest
        } else {
            rest.push(cards.last())
        }
    }
}

/// Removing repeated values keeps every value.
pub proof fn lemma_unique_cards_contains(cards: Seq<Card>)
    ensures
        forall|c: Card| #[trigger] unique_cards(cards).contains(c) <==> cards.contains(c),
        unique_cards(cards).len() == 0 <==> cards.len() == 0,
    decreases cards.len(),
{
    if cards.len() > 0 {
        let t = cards.drop_last();
        lemma_unique_cards_contains(t);
        assert forall|c: Card| #[trigger] unique_cards(cards).contains(c) <==> cards.contains(c) by {
            if cards.contains(c) {
                let j = choose|j: int| 0 <= j < cards.len() && cards[j] == c;
                if j < t.len() {
                    assert(t[j] == c);
                    assert(t.contains(c));
                    assert(unique_cards(t).contains(c));
                    let k = choose|k: int| 0 <= k < unique_cards(t).len() && unique_cards(t)[k] == c;
                    if !t.contains(cards.last()) {
                        assert(unique_cards(cards)[k] == c);
                    }
                } else if !t.contains(cards.last()) {
                    assert(unique_cards(cards)[unique_cards(cards).len() - 1] == c);
                } else {
                    assert(unique_cards(t).contains(c));
                }
            }
            if unique_cards(cards).contains(c) {
                let k = choose|k: int| 0 <= k < unique_cards(cards).len() && unique_cards(cards)[k] == c;
                if k < unique_cards(t).len() {
                    assert(unique_cards(t)[k] == c);
                    assert(unique_cards(t).contains(c));
                    let j = choose|j: int| 0 <= j < t.len() && t[j] == c;
                    assert(cards[j] == c);
                } else {
                    assert(cards[cards.len() - 1] == c);
                }
            }
        }
        if unique_cards(cards).len() == 0 {
            assert(!unique_cards(cards).contains(cards.last()));
            assert(cards.contains(cards[cards.len() - 1]));
        }
    }
}

/// Relies on itertools' `Itertools::unique`: the first occurrence of each
/// value, in the order of the input.
#[verifier::external_body]
fn remove_duplicates(cards: Vec<Card>) -> (r: Vec<Card>)
    ensures
        r@ == unique_cards(cards@),
{
    cards.into_iter().unique().collect()
}

/// The legal cards of `cards` on `top_card`, each value once: what a strategy
/// chooses from.
pub fn playable_cards(cards: Vec<Card>, top_card: Card) -> (r: Vec<Card>)
    requires
        cards@.len() > 0,
        top_card.color is Some,
    ensures
        r@ == unique_cards(legal_cards(cards@, top_card)),
{
    let legal_cards = filter_legal_cards(cards, top_card);
    remove_duplicates(legal_cards)
}

} // verus!
