use holdem::cards::Card;
use holdem::logic::{Action, BetError, Player, Stage, Table};

fn card(code: &str) -> Card {
    let mut it = code.chars();
    Card { rank: it.next().unwrap(), suit: it.next().unwrap() }
}

fn player(name: &str, hand: &[&str], chips: u32) -> Player {
    Player {
        name: name.to_string(),
        hand: hand.iter().map(|c| card(c)).collect(),
        chips,
        folded: false,
    }
}

fn table(players: Vec<Player>, current_bet: u32) -> Table {
    Table {
        pot: 0,
        players,
        deck: Vec::new(),
        c_cards: Vec::new(),
        stage: Stage::Preflop,
        current_bet,
    }
}

#[test]
fn opening_calls_settle_the_round() {
    // Two players at 5000 each, forced bet 50: a call and a check
    // (reinterpreted as a call) pay 50 each and end the cycle.
    let mut t = Table::new(vec!["A".to_string(), "B".to_string()]);
    let mut r = t.begin_betting();
    assert!(!t.betting_done(&r));

    assert_eq!(t.actor(&r), Some(0));
    let paid = t.apply_action(&mut r, 0, Action::Call).unwrap();
    assert_eq!(paid, 50);
    assert_eq!(t.players[0].chips, 4950);
    assert_eq!(t.pot, 50);
    assert!(!t.betting_done(&r));

    assert_eq!(t.actor(&r), Some(1));
    let paid = t.apply_action(&mut r, 1, Action::Check).unwrap();
    assert_eq!(paid, 50);
    assert_eq!(t.players[1].chips, 4950);
    assert_eq!(t.pot, 100);
    assert!(t.betting_done(&r));
}

#[test]
fn check_at_zero_bet_costs_nothing() {
    let mut t = table(
        vec![player("A", &["AH", "AD"], 1000), player("B", &["2H", "2D"], 1000)],
        0,
    );
    let mut r = t.begin_betting();
    let paid = t.apply_action(&mut r, 0, Action::Check).unwrap();
    assert_eq!(paid, 0);
    assert_eq!(t.players[0].chips, 1000);
    assert_eq!(t.pot, 0);
}

#[test]
fn raise_below_current_bet_is_rejected() {
    let mut t = table(
        vec![player("A", &["AH", "AD"], 1000), player("B", &["2H", "2D"], 1000)],
        50,
    );
    let mut r = t.begin_betting();
    let res = t.apply_action(&mut r, 0, Action::Raise(30));
    assert_eq!(res, Err(BetError::RaiseTooSmall));
    assert_eq!(t.players[0].chips, 1000);
    assert_eq!(t.pot, 0);
    assert_eq!(t.current_bet, 50);
}

#[test]
fn raise_sets_the_new_current_bet() {
    let mut t = table(
        vec![player("A", &["AH", "AD"], 1000), player("B", &["2H", "2D"], 1000)],
        50,
    );
    let mut r = t.begin_betting();
    let paid = t.apply_action(&mut r, 0, Action::Raise(200)).unwrap();
    assert_eq!(paid, 200);
    assert_eq!(t.current_bet, 200);
    assert_eq!(t.players[0].chips, 800);
    assert_eq!(t.pot, 200);
    // the raise reopens the cycle for everyone else
    assert!(!t.betting_done(&r));
}

#[test]
fn raise_reopens_a_settled_seat() {
    let mut t = table(
        vec![player("A", &["AH", "AD"], 1000), player("B", &["2H", "2D"], 1000)],
        50,
    );
    let mut r = t.begin_betting();
    t.apply_action(&mut r, 0, Action::Call).unwrap();
    t.apply_action(&mut r, 1, Action::Raise(100)).unwrap();
    // seat 0 matched 50, but the bet is now 100: not settled
    assert!(!t.betting_done(&r));
    assert_eq!(t.actor(&r), Some(0));
    t.apply_action(&mut r, 0, Action::Call).unwrap();
    assert!(t.betting_done(&r));
    // seat 0 paid the full bet again: 50 + 100
    assert_eq!(t.players[0].chips, 850);
    assert_eq!(t.pot, 250);
}

#[test]
fn cannot_bet_more_chips_than_held() {
    let mut t = table(
        vec![player("A", &["AH", "AD"], 30), player("B", &["2H", "2D"], 1000)],
        50,
    );
    let mut r = t.begin_betting();
    let res = t.apply_action(&mut r, 0, Action::Call);
    assert_eq!(res, Err(BetError::InsufficientChips));
    assert_eq!(t.players[0].chips, 30);
    let res = t.apply_action(&mut r, 0, Action::Raise(500));
    assert_eq!(res, Err(BetError::InsufficientChips));
    assert_eq!(t.players[0].chips, 30);
    assert_eq!(t.pot, 0);
}

#[test]
fn fold_costs_nothing_and_leaves_the_round() {
    let mut t = table(
        vec![player("A", &["AH", "AD"], 1000), player("B", &["2H", "2D"], 1000)],
        50,
    );
    let mut r = t.begin_betting();
    let paid = t.apply_action(&mut r, 0, Action::Fold).unwrap();
    assert_eq!(paid, 0);
    assert!(t.players[0].folded);
    assert_eq!(t.players[0].chips, 1000);
    assert_eq!(t.pot, 0);
    // only seat 1 is left to settle
    assert_eq!(t.actor(&r), Some(1));
    t.apply_action(&mut r, 1, Action::Call).unwrap();
    assert!(t.betting_done(&r));
}

#[test]
fn actor_skips_folded_seats() {
    let mut t = table(
        vec![
            player("A", &["AH", "AD"], 1000),
            player("B", &["2H", "2D"], 1000),
            player("C", &["3H", "3D"], 1000),
        ],
        50,
    );
    t.players[0].folded = true;
    t.players[1].folded = true;
    let r = t.begin_betting();
    assert_eq!(t.actor(&r), Some(2));
    let mut t2 = table(
        vec![player("A", &["AH", "AD"], 1000), player("B", &["2H", "2D"], 1000)],
        50,
    );
    t2.players[0].folded = true;
    t2.players[1].folded = true;
    let r2 = t2.begin_betting();
    assert_eq!(t2.actor(&r2), None);
}

#[test]
fn pot_equals_what_players_paid() {
    let mut t = table(
        vec![player("A", &["AH", "AD"], 1000), player("B", &["2H", "2D"], 1000)],
        50,
    );
    let pot_before = t.pot;
    let mut r = t.begin_betting();
    t.apply_action(&mut r, 0, Action::Raise(100)).unwrap();
    t.apply_action(&mut r, 1, Action::Raise(200)).unwrap();
    t.apply_action(&mut r, 0, Action::Call).unwrap();
    assert!(t.betting_done(&r));
    assert_eq!(t.pot, pot_before + r.total_paid);
    assert_eq!(
        r.total_paid,
        (1000 - t.players[0].chips) + (1000 - t.players[1].chips)
    );
    // the per-seat ledger attributes every chip in the pot
    assert_eq!(r.paid[0], 300); // raised to 100, then called the 200
    assert_eq!(r.paid[1], 200);
    assert_eq!(t.pot, 500);
}
