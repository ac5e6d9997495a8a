use holdem::cards::Card;
use holdem::logic::{join_displays, parse_action_word, ActionWord, Player, Stage, Table};
use holdem::text::u32_string;

#[test]
fn numbers_print_in_decimal() {
    assert_eq!(u32_string(0), "0");
    assert_eq!(u32_string(7), "7");
    assert_eq!(u32_string(50), "50");
    assert_eq!(u32_string(5000), "5000");
    assert_eq!(u32_string(4_294_967_295), "4294967295");
}

#[test]
fn board_displays_ten_as_10() {
    let cards = vec![
        Card { rank: 'T', suit: 'H' },
        Card { rank: 'A', suit: 'S' },
        Card { rank: '2', suit: 'C' },
    ];
    assert_eq!(join_displays(&cards), "10H AS 2C");
}

#[test]
fn summary_narrates_pot_board_and_bet() {
    let t = Table {
        pot: 150,
        players: vec![
            Player {
                name: "A".to_string(),
                hand: Vec::new(),
                chips: 5000,
                folded: false,
            },
            Player {
                name: "B".to_string(),
                hand: Vec::new(),
                chips: 5000,
                folded: false,
            },
        ],
        deck: Vec::new(),
        c_cards: vec![
            Card { rank: 'T', suit: 'C' },
            Card { rank: '7', suit: 'D' },
            Card { rank: '9', suit: 'H' },
        ],
        stage: Stage::Flop,
        current_bet: 0,
    };
    assert_eq!(t.summary(), "Pot: 150\n Cards: 10C 7D 9H\nCurrent Bet: 0\n");
}

#[test]
fn prompt_words_parse_to_actions() {
    assert_eq!(parse_action_word("fold"), Some(ActionWord::Fold));
    assert_eq!(parse_action_word("check"), Some(ActionWord::Check));
    assert_eq!(parse_action_word("call"), Some(ActionWord::Call));
    assert_eq!(parse_action_word("raise"), Some(ActionWord::Raise));
    assert_eq!(parse_action_word("bet"), None);
    assert_eq!(parse_action_word(""), None);
    assert_eq!(parse_action_word("Fold"), None);
    assert_eq!(parse_action_word("folds"), None);
}
