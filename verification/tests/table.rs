use holdem::cards::Card;
use holdem::logic::{Player, Stage, Table};

fn card(code: &str) -> Card {
    let mut it = code.chars();
    Card { rank: it.next().unwrap(), suit: it.next().unwrap() }
}

fn player(name: &str, hand: &[&str], chips: u32) -> Player {
    Player {
        name: name.to_string(),
        hand: hand.iter().map(|c| card(c)).collect(),
        chips,
        folded: false,
    }
}

fn small_table(players: Vec<Player>) -> Table {
    Table {
        pot: 0,
        players,
        deck: new_test_deck(),
        c_cards: Vec::new(),
        stage: Stage::Preflop,
        current_bet: 50,
    }
}

fn new_test_deck() -> Vec<Card> {
    let ranks = "23456789TJQKA";
    let suits = "CDHS";
    let mut deck = Vec::new();
    for r in ranks.chars() {
        for s in suits.chars() {
            deck.push(Card { rank: r, suit: s });
        }
    }
    deck
}

#[test]
fn new_table_opens_a_round() {
    let t = Table::new(vec!["Alice".to_string(), "Bob".to_string()]);
    assert_eq!(t.players.len(), 2);
    assert_eq!(t.players[0].name, "Alice");
    assert_eq!(t.players[1].name, "Bob");
    for p in &t.players {
        assert_eq!(p.chips, 5000);
        assert_eq!(p.hand.len(), 2);
        assert!(!p.folded);
    }
    assert_eq!(t.pot, 0);
    assert_eq!(t.current_bet, 50);
    assert_eq!(t.stage, Stage::Preflop);
    assert_eq!(t.c_cards.len(), 0);
    assert_eq!(t.deck.len(), 48);
}

#[test]
fn dealt_cards_leave_the_deck() {
    // The 52 cards are partitioned between the deck and the hands: no
    // card appears twice anywhere on the table, at creation or after
    // the board is dealt out.
    let mut t = Table::new(vec!["Alice".to_string(), "Bob".to_string()]);
    assert_all_cards_distinct(&t);
    t.next_stage().unwrap();
    t.next_stage().unwrap();
    t.next_stage().unwrap();
    assert_eq!(t.c_cards.len(), 5);
    assert_all_cards_distinct(&t);
}

fn assert_all_cards_distinct(t: &Table) {
    let mut seen: Vec<Card> = Vec::new();
    for c in t.deck.iter().chain(t.c_cards.iter()) {
        seen.push(*c);
    }
    for p in &t.players {
        for c in &p.hand {
            seen.push(*c);
        }
    }
    for i in 0..seen.len() {
        for j in 0..i {
            assert_ne!(seen[i], seen[j]);
        }
    }
}

#[test]
fn stages_run_in_order_with_board_growing() {
    let mut t = small_table(vec![
        player("A", &["AH", "AD"], 5000),
        player("B", &["2H", "2D"], 5000),
    ]);
    assert_eq!(t.stage, Stage::Preflop);
    assert_eq!(t.c_cards.len(), 0);

    t.next_stage().unwrap();
    assert_eq!(t.stage, Stage::Flop);
    assert_eq!(t.c_cards.len(), 3);
    assert_eq!(t.current_bet, 0);

    t.next_stage().unwrap();
    assert_eq!(t.stage, Stage::Turn);
    assert_eq!(t.c_cards.len(), 4);
    assert_eq!(t.current_bet, 0);

    t.next_stage().unwrap();
    assert_eq!(t.stage, Stage::River);
    assert_eq!(t.c_cards.len(), 5);
    assert_eq!(t.current_bet, 0);

    t.next_stage().unwrap();
    assert_eq!(t.stage, Stage::Showdown);
    assert_eq!(t.c_cards.len(), 5);
}

#[test]
fn round_reset_clears_hands_and_rearms_forced_bet() {
    let mut t = small_table(vec![
        player("A", &["AH", "AD"], 4000),
        player("B", &["2H", "2D"], 6000),
    ]);
    t.pot = 300;
    t.current_bet = 200;
    t.stage = Stage::Showdown;
    t.c_cards = vec![card("2C"), card("7D"), card("9H"), card("JS"), card("AC")];
    t.players[1].folded = true;

    t.next_round().unwrap();

    assert_eq!(t.pot, 0);
    assert_eq!(t.current_bet, 50);
    assert_eq!(t.stage, Stage::Preflop);
    assert_eq!(t.c_cards.len(), 0);
    for p in &t.players {
        assert_eq!(p.hand.len(), 2);
        assert!(!p.folded);
    }
    assert_eq!(t.players[0].chips, 4000);
    assert_eq!(t.players[1].chips, 6000);
}

#[test]
fn exhausted_deck_is_reported() {
    let mut t = small_table(vec![
        player("A", &["AH", "AD"], 5000),
        player("B", &["2H", "2D"], 5000),
    ]);
    t.deck = vec![card("3C"), card("3D"), card("3H")];
    let res = t.next_round();
    assert!(res.is_err());
    // nothing changed
    assert_eq!(t.current_bet, 50);
    assert_eq!(t.deck.len(), 3);
    assert_eq!(t.players[0].hand.len(), 2);
}

#[test]
fn query_lists_board_then_each_hand() {
    let mut t = small_table(vec![
        player("A", &["AH", "AD"], 5000),
        player("B", &["2H", "2D"], 5000),
    ]);
    t.c_cards = vec![card("2C"), card("7D"), card("9H"), card("JS"), card("AC")];
    assert_eq!(
        t.showdown_query(),
        "?cc=2C,7D,9H,JS,AC&pc[]=AH,AD&pc[]=2H,2D"
    );
}

#[test]
fn query_writes_ten_as_t() {
    let mut t = small_table(vec![
        player("A", &["TH", "TD"], 5000),
        player("B", &["2H", "2D"], 5000),
    ]);
    t.c_cards = vec![card("TC"), card("7D"), card("9H"), card("JS"), card("AC")];
    assert_eq!(
        t.showdown_query(),
        "?cc=TC,7D,9H,JS,AC&pc[]=TH,TD&pc[]=2H,2D"
    );
    assert_eq!(t.players[0].get_cards(), "TH,TD");
}

#[test]
fn winner_by_cards_takes_the_pot() {
    // Board 2C,7D,9H,JS,AC; aces make three of a kind for seat 0.
    let mut t = small_table(vec![
        player("A", &["AH", "AD"], 4900),
        player("B", &["2H", "2D"], 4900),
    ]);
    t.pot = 200;
    t.c_cards = vec![card("2C"), card("7D"), card("9H"), card("JS"), card("AC")];

    let winners = t.match_winners(&vec!["AH,AD".to_string()]);
    assert_eq!(winners, vec![0]);

    t.award_pot(&winners);
    assert_eq!(t.players[0].chips, 5100);
    assert_eq!(t.players[1].chips, 4900);
    assert_eq!(t.pot, 0);
}

#[test]
fn unmatched_winner_strings_pay_nobody() {
    let t = small_table(vec![
        player("A", &["AH", "AD"], 5000),
        player("B", &["2H", "2D"], 5000),
    ]);
    let winners = t.match_winners(&vec!["KH,KD".to_string()]);
    assert!(winners.is_empty());
}

#[test]
fn tied_winners_split_with_remainder_to_first() {
    let mut t = small_table(vec![
        player("A", &["AH", "AD"], 1000),
        player("B", &["AS", "AC"], 1000),
        player("C", &["2H", "2D"], 1000),
    ]);
    t.pot = 101;
    let winners = vec![0usize, 1usize];
    t.award_pot(&winners);
    assert_eq!(t.players[0].chips, 1051);
    assert_eq!(t.players[1].chips, 1050);
    assert_eq!(t.players[2].chips, 1000);
    assert_eq!(t.pot, 0);
}

#[test]
fn sole_survivor_takes_pot_without_resolver() {
    let mut t = small_table(vec![
        player("A", &["AH", "AD"], 4800),
        player("B", &["2H", "2D"], 4800),
        player("C", &["3H", "3D"], 4800),
    ]);
    t.pot = 600;
    t.players[0].folded = true;
    t.players[2].folded = true;

    let res = t.finish_by_fold();
    assert_eq!(res, Some(1));
    assert_eq!(t.players[1].chips, 5400);
    assert_eq!(t.pot, 0);
    assert_eq!(t.players[0].chips, 4800);
    assert_eq!(t.players[2].chips, 4800);
}

#[test]
fn two_players_still_in_no_early_finish() {
    let mut t = small_table(vec![
        player("A", &["AH", "AD"], 4800),
        player("B", &["2H", "2D"], 4800),
        player("C", &["3H", "3D"], 4800),
    ]);
    t.pot = 600;
    t.players[0].folded = true;

    let res = t.finish_by_fold();
    assert_eq!(res, None);
    assert_eq!(t.pot, 600);
    assert_eq!(t.players[1].chips, 4800);
}
