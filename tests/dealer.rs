use uno::card::{generate_deck, Card, Color, Symbol, N_CARDS};
use uno::dealer::Dealer;
use uno::player::select_random_color;
use std::collections::VecDeque;

fn generate_cards(values: Vec<(Symbol, Option<Color>)>) -> Vec<Card> {
    let mut cards = Vec::with_capacity(values.len());
    for (symbol, color) in values.into_iter() {
        cards.push(Card { symbol, color });
    }
    cards
}

fn count(cards: &VecDeque<Card>, card: Card) -> usize {
    cards.iter().filter(|c| **c == card).count()
}

#[test]
fn test_generate_deck_n_cards() {
    let deck = generate_deck();
    assert_eq!(deck.len(), N_CARDS);
}

#[test]
fn generate_deck_holds_the_standard_cards() {
    let deck = generate_deck();
    for color in [Color::Red, Color::Blue, Color::Green, Color::Yellow] {
        assert_eq!(count(&deck, Card { symbol: Symbol::Number(0), color: Some(color) }), 1);
        for n in 1..=9u8 {
            assert_eq!(count(&deck, Card { symbol: Symbol::Number(n), color: Some(color) }), 2);
        }
        for symbol in [Symbol::Skip, Symbol::Reverse, Symbol::Draw2] {
            assert_eq!(count(&deck, Card { symbol, color: Some(color) }), 2);
        }
    }
    assert_eq!(count(&deck, Card { symbol: Symbol::Wild, color: None }), 4);
    assert_eq!(count(&deck, Card { symbol: Symbol::WildDraw4, color: None }), 4);
}

#[test]
fn generate_deck_is_shuffled() {
    // the chance that twenty fresh decks all lie in the same order is nil
    let first = generate_deck();
    let mut all_same = true;
    for _ in 0..20 {
        if generate_deck() != first {
            all_same = false;
        }
    }
    assert!(!all_same);
}

#[test]
fn test_dealer_flip_first_card() {
    let mut dealer = Dealer::new();
    assert_eq!(dealer.pile().len(), 0);

    let n_before = dealer.deck().len();
    dealer.flip_first_card();
    let n_after = dealer.deck().len();

    assert_eq!(dealer.pile().len(), 1);
    assert_eq!(n_before - n_after, 1);
}

#[test]
fn test_dealer_flip_first_card_wild_cards() {
    let mut deck = generate_deck();

    // add wild cards to back of deck
    let first_cards = generate_cards(vec![
        (Symbol::Number(0), Some(Color::Red)),
        (Symbol::Wild, None),
        (Symbol::WildDraw4, None),
    ]);
    for card in first_cards.clone() {
        deck.push_back(card)
    }
    let mut dealer = Dealer::with_deck(deck);

    assert!(dealer.pile().is_empty());
    dealer.flip_first_card();

    // check top card
    assert!(!dealer.top_card().is_wild());
    assert_eq!(dealer.top_card(), first_cards[0]);

    // check discarded wild cards
    assert_eq!(dealer.deck()[0], first_cards[1]);
    assert_eq!(dealer.deck()[1], first_cards[2]);
}

fn draw_without_recycling(n: usize) {
    let mut dealer = Dealer::new();
    let n_before = dealer.deck().len();
    let top_of_deck: Vec<Card> = dealer.deck().iter().skip(n_before - n).copied().collect();
    let cards = dealer.draw(n);
    let n_after = dealer.deck().len();

    assert_eq!(cards.len(), n);
    assert_eq!(n_before - n_after, n);
    assert_eq!(cards, top_of_deck);
}

#[test]
fn test_dealer_draw_n_cards_without_recycling_0() {
    draw_without_recycling(0);
}

#[test]
fn test_dealer_draw_n_cards_without_recycling_1() {
    draw_without_recycling(1);
}

#[test]
fn test_dealer_draw_n_cards_without_recycling_3() {
    draw_without_recycling(3);
}

#[test]
fn test_dealer_draw_n_cards_without_recycling_7() {
    draw_without_recycling(7);
}

#[test]
fn test_dealer_draw_n_cards_without_recycling_13() {
    draw_without_recycling(13);
}

#[test]
fn test_dealer_draw_with_recycle() {
    let n = 20;

    // draw most cards from deck
    let mut dealer = Dealer::new();
    let _cards = dealer.draw(100);

    // set color for discard to work
    for mut _card in _cards.into_iter() {
        if _card.is_wild() {
            _card.color = Some(select_random_color());
        }
        dealer.discard(_card);
    }
    let n_available = dealer.deck().len();

    // draw more cards than remaining in deck
    let top_card = dealer.top_card();
    assert!(n > n_available);
    let cards = dealer.draw(n);

    assert_eq!(cards.len(), n); // check all requested cards were drawn
    assert_eq!(top_card, dealer.top_card()); // check top card stays the same
}

#[test]
fn draw_with_recycle_takes_deck_first_and_resets_wild_colors() {
    let mut dealer = Dealer::new();
    let drawn = dealer.draw(100);
    for mut card in drawn.into_iter() {
        if card.is_wild() {
            card.color = Some(Color::Green);
        }
        dealer.discard(card);
    }
    let rest: Vec<Card> = dealer.deck().iter().copied().collect();
    let cards = dealer.draw(20);
    assert_eq!(cards[..8], rest[..]);
    assert_eq!(dealer.pile().len(), 1);
    assert_eq!(dealer.deck().len() + cards.len() + dealer.pile().len(), N_CARDS);
    for card in dealer.deck().iter().chain(cards[8..].iter()) {
        assert_eq!(card.is_wild(), card.color.is_none());
    }
}

#[test]
fn recycle_pile_keeps_top_card() {
    let mut dealer = Dealer::new();
    let drawn = dealer.draw(30);
    for mut card in drawn.into_iter() {
        if card.is_wild() {
            card.color = Some(Color::Blue);
        }
        dealer.discard(card);
    }
    let top = dealer.top_card();
    let deck_before: Vec<Card> = dealer.deck().iter().copied().collect();
    let pile_len = dealer.pile().len();
    dealer.recycle_pile();
    assert_eq!(dealer.top_card(), top);
    assert_eq!(dealer.pile().len(), 1);
    assert_eq!(dealer.deck().len(), deck_before.len() + pile_len - 1);
    // the old draw pile stays on top
    let deck_after: Vec<Card> = dealer.deck().iter().copied().collect();
    assert_eq!(deck_after[pile_len - 1..], deck_before[..]);
    for card in deck_after.iter() {
        assert_eq!(card.is_wild(), card.color.is_none());
    }
}

#[test]
fn recycle_pile_with_only_the_top_card() {
    let mut dealer = Dealer::new();
    dealer.flip_first_card();
    let top = dealer.top_card();
    let deck_len = dealer.deck().len();
    dealer.recycle_pile();
    assert_eq!(dealer.top_card(), top);
    assert_eq!(dealer.deck().len(), deck_len);
}

#[test]
fn refill_deck_puts_cards_under_the_deck_in_reverse() {
    let deck: VecDeque<Card> = generate_cards(vec![(Symbol::Number(4), Some(Color::Red))]).into_iter().collect();
    let mut dealer = Dealer::with_deck(deck);
    let cards = generate_cards(vec![
        (Symbol::Wild, Some(Color::Blue)),
        (Symbol::Skip, Some(Color::Green)),
    ]);
    dealer.refill_deck(cards);
    let after: Vec<Card> = dealer.deck().iter().copied().collect();
    assert_eq!(
        after,
        generate_cards(vec![
            (Symbol::Skip, Some(Color::Green)),
            (Symbol::Wild, None),
            (Symbol::Number(4), Some(Color::Red)),
        ])
    );
}

#[test]
fn cards_are_conserved_over_draws_discards_and_recycles() {
    let mut dealer = Dealer::new();
    let mut hands = dealer.draw_hands(4, 7);
    let held = |hands: &Vec<Vec<Card>>| hands.iter().map(|h| h.len()).sum::<usize>();
    assert_eq!(dealer.deck().len() + dealer.pile().len() + held(&hands), N_CARDS);
    dealer.flip_first_card();
    assert_eq!(dealer.deck().len() + dealer.pile().len() + held(&hands), N_CARDS);
    for round in 0..200 {
        let i = round % 4;
        if round % 3 == 0 && !hands[i].is_empty() {
            let mut card = hands[i].pop().unwrap();
            if card.is_wild() {
                card.color = Some(Color::Yellow);
            }
            dealer.discard(card);
        } else if round % 7 == 0 {
            dealer.recycle_pile();
        } else if dealer.deck().len() + dealer.pile().len() > 3 {
            let cards = dealer.draw(2);
            hands[i].extend(cards);
        }
        assert_eq!(dealer.deck().len() + dealer.pile().len() + held(&hands), N_CARDS);
    }
}

#[test]
fn draw_hands_deals_from_the_top() {
    let mut dealer = Dealer::new();
    let deck: Vec<Card> = dealer.deck().iter().copied().collect();
    let hands = dealer.draw_hands(4, 7);
    assert_eq!(hands.len(), 4);
    for (i, hand) in hands.iter().enumerate() {
        let end = N_CARDS - 7 * i;
        assert_eq!(hand[..], deck[end - 7..end]);
    }
    assert_eq!(dealer.deck().len(), N_CARDS - 28);
}
