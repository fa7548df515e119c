use uno::card::{Card, Color, Symbol};
use uno::game::{Game, InvariantViolation};
use uno::player::{game_over, generate_players, Player, PlayerCycle, Strategy};

#[test]
fn player_takes_and_plays_cards() {
    let mut player = Player::new("A");
    assert!(game_over(&player));
    let red_two = Card { symbol: Symbol::Number(2), color: Some(Color::Red) };
    let blue_five = Card { symbol: Symbol::Number(5), color: Some(Color::Blue) };
    player.take_cards(vec![red_two, blue_five]);
    assert_eq!(player.hand().len(), 2);
    let top = Card { symbol: Symbol::Number(5), color: Some(Color::Green) };
    assert_eq!(player.play_from_hand(&top), Some(blue_five));
    assert_eq!(player.hand(), &vec![red_two]);
    let top = Card { symbol: Symbol::Number(7), color: Some(Color::Green) };
    assert_eq!(player.play_from_hand(&top), None);
    assert_eq!(player.hand(), &vec![red_two]);
}

#[test]
fn played_wild_card_gets_a_color() {
    let mut player = Player::new("B");
    let wild = Card { symbol: Symbol::Wild, color: None };
    player.take_cards(vec![wild]);
    let top = Card { symbol: Symbol::Number(7), color: Some(Color::Green) };
    let played = player.play_from_hand(&top).unwrap();
    assert_eq!(played.symbol, Symbol::Wild);
    assert!(played.color.is_some());
    assert!(game_over(&player));
}

#[test]
fn play_from_cards_only_legal() {
    let player = Player::new("C");
    let top = Card { symbol: Symbol::Skip, color: Some(Color::Yellow) };
    let cards = vec![
        Card { symbol: Symbol::Number(3), color: Some(Color::Red) },
        Card { symbol: Symbol::Skip, color: Some(Color::Blue) },
    ];
    for _ in 0..20 {
        assert_eq!(player.play_from_cards(&top, cards.clone()), Some(cards[1]));
    }
    assert_eq!(player.play_from_cards(&top, vec![cards[0]]), None);
}

#[test]
fn random_strategy_picks_from_the_legal_cards() {
    let legal = vec![
        Card { symbol: Symbol::Number(3), color: Some(Color::Red) },
        Card { symbol: Symbol::Draw2, color: Some(Color::Red) },
    ];
    for _ in 0..20 {
        let card = Strategy::Random.select_card(&legal).unwrap();
        assert!(legal.contains(&card));
    }
    assert_eq!(Strategy::Random.select_card(&vec![]), None);
}

#[test]
fn players_are_named_in_order() {
    let players = generate_players(4);
    let names: Vec<&str> = players.iter().map(|p| p.name()).collect();
    assert_eq!(names, vec!["A", "B", "C", "D"]);
    let cycle = PlayerCycle::new(4);
    assert_eq!(cycle.get_names(), vec!["A", "B", "C", "D"]);
}

#[test]
fn player_cycle_turns_skips_and_reverses() {
    let mut players = PlayerCycle::new(4);
    assert_eq!(players.next().name(), "A");
    assert_eq!(players.skip(), "B");
    assert_eq!(players.next().name(), "C");
    players.reverse();
    assert_eq!(players.next().name(), "B");
    assert_eq!(players.turn(), 4);
}

#[test]
fn player_cycle_takes_hands() {
    let mut players = PlayerCycle::new(4);
    let card = Card { symbol: Symbol::Number(1), color: Some(Color::Red) };
    players.take_hands(vec![vec![card], vec![card, card], vec![], vec![card]]);
    assert_eq!(players.next().hand().len(), 1);
    assert_eq!(players.next().hand().len(), 2);
    assert_eq!(players.next().hand().len(), 0);
    assert_eq!(players.next().hand().len(), 1);
}

#[test]
fn game_runs_turns_until_a_winner() {
    let mut game = Game::new();
    assert_eq!(game.dealer().pile().len(), 1);
    assert_eq!(game.dealer().deck().len(), 108 - 28 - 1);
    assert!(!game.dealer().top_card().is_wild());
    let mut finished = false;
    for _ in 0..20000 {
        match game.play_turn() {
            Ok(report) => {
                if let Some(card) = report.play {
                    assert!(card.color.is_some());
                    assert_eq!(game.dealer().top_card(), card);
                }
                if report.from_hand.is_none() {
                    assert!(report.drawn.is_some());
                }
                if report.winner {
                    finished = true;
                    break;
                }
            }
            Err(InvariantViolation::CardsExhausted) => break,
            Err(e) => panic!("unexpected {:?}", e),
        }
    }
    let _ = finished;
}
