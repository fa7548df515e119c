use uno::card::{Card, Color, Symbol};
use uno::legality::{filter_legal_cards, playable_cards};

fn generate_cards(values: Vec<(Symbol, Option<Color>)>) -> Vec<Card> {
    let mut cards = Vec::with_capacity(values.len());
    for (symbol, color) in values.into_iter() {
        cards.push(Card { symbol, color });
    }
    cards
}

#[test]
fn test_filter_legal_cards_top_card_red_1() {
    let top_card = Card {
        symbol: Symbol::Number(1),
        color: Some(Color::Red),
    };
    let cards = generate_cards(vec![
        (Symbol::Number(1), Some(Color::Red)),
        (Symbol::Number(1), Some(Color::Blue)),
        (Symbol::Number(1), Some(Color::Green)),
        (Symbol::Number(2), Some(Color::Red)),
        (Symbol::Draw2, Some(Color::Red)),
        (Symbol::Skip, Some(Color::Red)),
        (Symbol::Wild, None),
        (Symbol::Number(0), Some(Color::Green)),
        (Symbol::Number(3), Some(Color::Green)),
        (Symbol::WildDraw4, None),
    ]);
    let legal_cards = filter_legal_cards(cards.clone(), top_card);
    assert_eq!(legal_cards, cards[..=6]);
}

#[test]
fn test_filter_legal_cards_top_card_blue_3() {
    let top_card = Card {
        symbol: Symbol::Number(3),
        color: Some(Color::Blue),
    };
    let cards = generate_cards(vec![
        (Symbol::Number(3), Some(Color::Red)),
        (Symbol::Number(3), Some(Color::Yellow)),
        (Symbol::Number(3), Some(Color::Green)),
        (Symbol::Number(2), Some(Color::Blue)),
        (Symbol::Draw2, Some(Color::Blue)),
        (Symbol::Skip, Some(Color::Blue)),
        (Symbol::Wild, None),
        (Symbol::Number(4), Some(Color::Green)),
        (Symbol::Number(9), Some(Color::Yellow)),
        (Symbol::WildDraw4, None),
    ]);
    let legal_cards = filter_legal_cards(cards.clone(), top_card);
    assert_eq!(legal_cards, cards[..=6]);
}

#[test]
fn test_filter_legal_cards_top_card_yellow_skip() {
    let top_card = Card {
        symbol: Symbol::Skip,
        color: Some(Color::Yellow),
    };
    let cards = generate_cards(vec![
        (Symbol::Skip, Some(Color::Red)),
        (Symbol::Skip, Some(Color::Yellow)),
        (Symbol::Skip, Some(Color::Green)),
        (Symbol::Number(9), Some(Color::Yellow)),
        (Symbol::Draw2, Some(Color::Yellow)),
        (Symbol::Skip, Some(Color::Yellow)),
        (Symbol::Wild, None),
        (Symbol::Number(6), Some(Color::Green)),
        (Symbol::Number(2), Some(Color::Red)),
        (Symbol::WildDraw4, None),
    ]);
    let legal_cards = filter_legal_cards(cards.clone(), top_card);
    assert_eq!(legal_cards, cards[..=6]);
}

#[test]
fn test_filter_legal_cards_no_color_matches_wild_draw_4() {
    let top_card = Card {
        symbol: Symbol::Number(0),
        color: Some(Color::Green),
    };
    let cards = generate_cards(vec![
        (Symbol::Number(0), Some(Color::Red)),
        (Symbol::Number(0), Some(Color::Yellow)),
        (Symbol::Wild, None),
        (Symbol::WildDraw4, None),
        (Symbol::Number(6), Some(Color::Blue)),
        (Symbol::Number(2), Some(Color::Red)),
    ]);
    let legal_cards = filter_legal_cards(cards.clone(), top_card);
    assert_eq!(legal_cards, cards[..=3]);
}

#[test]
fn filter_puts_wild_draw_fours_last_when_no_color_matches() {
    let top_card = Card {
        symbol: Symbol::Number(5),
        color: Some(Color::Blue),
    };
    let cards = generate_cards(vec![
        (Symbol::WildDraw4, None),
        (Symbol::Number(5), Some(Color::Red)),
        (Symbol::Number(7), Some(Color::Green)),
        (Symbol::WildDraw4, None),
    ]);
    let legal_cards = filter_legal_cards(cards.clone(), top_card);
    assert_eq!(legal_cards, vec![cards[1], cards[0], cards[3]]);
}

#[test]
fn filter_only_wild_draw_four_is_legal() {
    let top_card = Card {
        symbol: Symbol::Reverse,
        color: Some(Color::Red),
    };
    let cards = generate_cards(vec![(Symbol::WildDraw4, None)]);
    assert_eq!(filter_legal_cards(cards.clone(), top_card), cards);
}

#[test]
fn filter_nothing_legal() {
    let top_card = Card {
        symbol: Symbol::Number(8),
        color: Some(Color::Yellow),
    };
    let cards = generate_cards(vec![
        (Symbol::Number(1), Some(Color::Red)),
        (Symbol::Draw2, Some(Color::Blue)),
    ]);
    assert!(filter_legal_cards(cards, top_card).is_empty());
}

#[test]
fn filter_color_match_on_other_card_excludes_wild_draw_four() {
    let top_card = Card {
        symbol: Symbol::Number(8),
        color: Some(Color::Yellow),
    };
    let cards = generate_cards(vec![
        (Symbol::WildDraw4, None),
        (Symbol::Number(1), Some(Color::Yellow)),
    ]);
    assert_eq!(filter_legal_cards(cards.clone(), top_card), vec![cards[1]]);
}

#[test]
fn playable_cards_lists_each_value_once() {
    let top_card = Card {
        symbol: Symbol::Number(1),
        color: Some(Color::Red),
    };
    let cards = generate_cards(vec![
        (Symbol::Number(2), Some(Color::Red)),
        (Symbol::Wild, None),
        (Symbol::Number(2), Some(Color::Red)),
        (Symbol::Number(9), Some(Color::Green)),
        (Symbol::Wild, None),
        (Symbol::Number(1), Some(Color::Blue)),
        (Symbol::Number(2), Some(Color::Red)),
    ]);
    let choices = playable_cards(cards.clone(), top_card);
    assert_eq!(choices, vec![cards[0], cards[1], cards[5]]);
}
