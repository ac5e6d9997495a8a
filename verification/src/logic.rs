//! The table: players, the round/stage state machine, the betting
//! protocol and pot accounting, and the showdown pay-out.

use vstd::prelude::*;
use vstd::string::*;
use vstd::multiset::Multiset;
use crate::cards::Card;
use crate::cards::new_deck;
use crate::cards::push_char;

verus! {

/// Chip stack every player starts the session with.
pub const STARTING_CHIPS: u32 = 5000;

/// The fixed forced bet owed by every player at the start of a round.
pub const FORCED_BET: u32 = 50;

/// A seated player: identity, private hole cards, chip stack, and
/// whether they have folded this round.
pub struct Player {
    pub name: String,
    pub hand: Vec<Card>,
    pub chips: u32,
    pub folded: bool,
}

impl Player {
    pub open spec fn hand_wf(self) -> bool {
        forall|i: int| 0 <= i < self.hand@.len() ==> (#[trigger] self.hand@[i]).wf()
    }

    pub fn new(name: String) -> (p: Player)
        ensures
            p.name == name,
            p.hand@ =~= Seq::<Card>::empty(),
            p.chips == STARTING_CHIPS,
            p.folded == false,
    {
        Player { name, hand: Vec::new(), chips: STARTING_CHIPS, folded: false }
    }
}

/// The five phases of a hold'em round.
#[derive(Clone, Copy, Debug, PartialEq, Eq, Structural)]
pub enum Stage {
    Preflop,
    Flop,
    Turn,
    River,
    Showdown,
}

/// The successor of each stage within a round; after Showdown a round
/// reset starts the next round at Preflop.
pub open spec fn stage_after(s: Stage) -> Stage {
    match s {
        Stage::Preflop => Stage::Flop,
        Stage::Flop => Stage::Turn,
        Stage::Turn => Stage::River,
        Stage::River => Stage::Showdown,
        Stage::Showdown => Stage::Preflop,
    }
}

/// How many community cards are revealed on leaving a stage.
pub open spec fn cards_revealed(s: Stage) -> int {
    match s {
        Stage::Preflop => 3,
        Stage::Flop => 1,
        Stage::Turn => 1,
        Stage::River => 0,
        Stage::Showdown => 0,
    }
}

/// A betting decision, as the prompt layer hands it in.
#[derive(Clone, Copy, Debug, PartialEq, Eq, Structural)]
pub enum Action {
    Fold,
    Check,
    Call,
    Raise(u32),
}

/// The word a player may answer the betting prompt with. `Raise` still
/// lacks its amount, which is asked for separately.
#[derive(Clone, Copy, Debug, PartialEq, Eq, Structural)]
pub enum ActionWord {
    Fold,
    Check,
    Call,
    Raise,
}

/// The betting word a prompt answer names, if any.
pub open spec fn word_of(s: Seq<char>) -> Option<ActionWord> {
    if s == "fold"@ {
        Some(ActionWord::Fold)
    } else if s == "check"@ {
        Some(ActionWord::Check)
    } else if s == "call"@ {
        Some(ActionWord::Call)
    } else if s == "raise"@ {
        Some(ActionWord::Raise)
    } else {
        None
    }
}

/// Reads a betting prompt answer; anything but the four words is
/// invalid input, to be asked again.
pub fn parse_action_word(s: &str) -> (r: Option<ActionWord>)
    ensures
        r == word_of(s@),
{
    if crate::text::str_eq(s, "fold") {
        Some(ActionWord::Fold)
    } else if crate::text::str_eq(s, "check") {
        Some(ActionWord::Check)
    } else if crate::text::str_eq(s, "call") {
        Some(ActionWord::Call)
    } else if crate::text::str_eq(s, "raise") {
        Some(ActionWord::Raise)
    } else {
        None
    }
}

/// Why a betting action was rejected; the state is untouched and the
/// player is to be asked again.
#[derive(Clone, Copy, Debug, PartialEq, Eq, Structural)]
pub enum BetError {
    /// A raise below the current bet.
    RaiseTooSmall,
    /// The action costs more chips than the player holds.
    InsufficientChips,
}

/// Failure of a dealing step: the deck ran out of cards.
#[derive(Clone, Copy, Debug, PartialEq, Eq, Structural)]
pub enum DeckError {
    DeckExhausted,
}

/// Total chips held by a sequence of players.
pub open spec fn chips_sum(ps: Seq<Player>) -> int
    decreases ps.len(),
{
    if ps.len() == 0 {
        0
    } else {
        chips_sum(ps.drop_last()) + ps.last().chips
    }
}

proof fn lemma_chips_sum_nonneg(ps: Seq<Player>)
    ensures
        chips_sum(ps) >= 0,
    decreases ps.len(),
{
    if ps.len() > 0 {
        lemma_chips_sum_nonneg(ps.drop_last());
    }
}

proof fn lemma_chips_sum_bound(ps: Seq<Player>, i: int)
    requires
        0 <= i < ps.len(),
    ensures
        chips_sum(ps) >= ps[i].chips,
    decreases ps.len(),
{
    lemma_chips_sum_nonneg(ps.drop_last());
    if i < ps.len() - 1 {
        lemma_chips_sum_bound(ps.drop_last(), i);
    }
}

proof fn lemma_chips_sum_update(ps: Seq<Player>, i: int, p: Player)
    requires
        0 <= i < ps.len(),
    ensures
        chips_sum(ps.update(i, p)) == chips_sum(ps) - ps[i].chips + p.chips,
    decreases ps.len(),
{
    if i == ps.len() - 1 {
        assert(ps.update(i, p).drop_last() =~= ps.drop_last());
    } else {
        assert(ps.update(i, p).drop_last() =~= ps.drop_last().update(i, p));
        lemma_chips_sum_update(ps.drop_last(), i, p);
    }
}

/// Two player sequences with the same stacks seat by seat hold the same
/// total.
proof fn lemma_chips_sum_pointwise(a: Seq<Player>, b: Seq<Player>)
    requires
        a.len() == b.len(),
        forall|i: int| 0 <= i < a.len() ==> a[i].chips == b[i].chips,
    ensures
        chips_sum(a) == chips_sum(b),
    decreases a.len(),
{
    if a.len() > 0 {
        lemma_chips_sum_pointwise(a.drop_last(), b.drop_last());
    }
}

/// Multiset of the hole cards held by a sequence of players.
pub open spec fn hands_multiset(ps: Seq<Player>) -> Multiset<Card>
    decreases ps.len(),
{
    if ps.len() == 0 {
        Multiset::<Card>::empty()
    } else {
        hands_multiset(ps.drop_last()).add(ps.last().hand@.to_multiset())
    }
}

/// Two player sequences holding the same hand seat by seat hold the
/// same cards.
proof fn lemma_hands_multiset_pointwise(a: Seq<Player>, b: Seq<Player>)
    requires
        a.len() == b.len(),
        forall|i: int| 0 <= i < a.len() ==> a[i].hand == b[i].hand,
    ensures
        hands_multiset(a) == hands_multiset(b),
    decreases a.len(),
{
    if a.len() > 0 {
        lemma_hands_multiset_pointwise(a.drop_last(), b.drop_last());
    }
}

/// After a deal of two consecutive top cards to each seat, the hands
/// together hold exactly the cards drawn off the top of the deck.
proof fn lemma_hands_multiset_of_deal(ps: Seq<Player>, deck: Seq<Card>)
    requires
        2 * ps.len() <= deck.len(),
        forall|i: int|
            0 <= i < ps.len() ==> (#[trigger] ps[i]).hand@ == seq![
                deck[deck.len() - 1 - 2 * i],
                deck[deck.len() - 2 - 2 * i],
            ],
    ensures
        hands_multiset(ps) == deck.skip(deck.len() - 2 * ps.len()).to_multiset(),
    decreases ps.len(),
{
    broadcast use vstd::seq_lib::group_to_multiset_ensures;
    broadcast use vstd::multiset::group_multiset_axioms;

    let n = ps.len() as int;
    let m = deck.len() as int;
    if n == 0 {
        assert(deck.skip(m) =~= Seq::<Card>::empty());
        assert(deck.skip(m).to_multiset() =~= Multiset::<Card>::empty());
    } else {
        lemma_hands_multiset_of_deal(ps.drop_last(), deck);
        let h = ps.last().hand@;
        assert(h == seq![deck[m - 2 * n + 1], deck[m - 2 * n]]);
        assert(h =~= Seq::<Card>::empty().push(deck[m - 2 * n + 1]).push(deck[m - 2 * n]));
        assert(Seq::<Card>::empty().to_multiset() =~= Multiset::<Card>::empty());
        assert(h.to_multiset() =~= Multiset::<Card>::empty().insert(deck[m - 2 * n + 1]).insert(
            deck[m - 2 * n],
        ));
        let pair = seq![deck[m - 2 * n], deck[m - 2 * n + 1]];
        let rest = deck.skip(m - 2 * n + 2);
        assert(deck.skip(m - 2 * n) =~= pair + rest);
        vstd::seq_lib::lemma_multiset_commutative(pair, rest);
        assert(pair =~= Seq::<Card>::empty().push(deck[m - 2 * n]).push(deck[m - 2 * n + 1]));
        assert(pair.to_multiset() =~= Multiset::<Card>::empty().insert(deck[m - 2 * n]).insert(
            deck[m - 2 * n + 1],
        ));
        assert(hands_multiset(ps) =~= deck.skip(m - 2 * n).to_multiset());
    }
}

/// The table: the aggregate the whole session lives in.
pub struct Table {
    pub pot: u32,
    pub players: Vec<Player>,
    pub deck: Vec<Card>,
    pub c_cards: Vec<Card>,
    pub stage: Stage,
    pub current_bet: u32,
}

impl Table {
    /// Chips on the table in any form: the pot plus every stack.
    /// Betting moves chips between stacks and pot but never changes it.
    pub open spec fn money(self) -> int {
        self.pot + chips_sum(self.players@)
    }

    /// Every card on the table, wherever it lies: still in the deck,
    /// on the board, or in a hand.
    pub open spec fn card_multiset(self) -> Multiset<Card> {
        self.deck@.to_multiset().add(self.c_cards@.to_multiset()).add(
            hands_multiset(self.players@),
        )
    }

    /// No card appears twice anywhere on the table: once a card has
    /// moved out of the deck, the deck no longer holds it, and no two
    /// zones share a card.
    pub open spec fn cards_distinct(self) -> bool {
        forall|c: Card| #[trigger] self.card_multiset().count(c) <= 1
    }

    pub open spec fn cards_wf(self) -> bool {
        &&& forall|i: int| 0 <= i < self.deck@.len() ==> (#[trigger] self.deck@[i]).wf()
        &&& forall|i: int| 0 <= i < self.c_cards@.len() ==> (#[trigger] self.c_cards@[i]).wf()
        &&& forall|i: int| 0 <= i < self.players@.len() ==> (#[trigger] self.players@[i]).hand_wf()
    }

    pub open spec fn wf(self) -> bool {
        &&& 2 <= self.players@.len() <= 9
        &&& self.money() <= u32::MAX
        &&& self.cards_wf()
    }

    /// Seats a table of 2 to 9 named players, each with the starting
    /// stack, builds a fresh shuffled deck and opens the first round.
    pub fn new(names: Vec<String>) -> (t: Table)
        requires
            2 <= names@.len() <= 9,
        ensures
            t.wf(),
            t.players@.len() == names@.len(),
            forall|i: int|
                0 <= i < names@.len() ==> (#[trigger] t.players@[i]).name@ == names@[i]@
                    && t.players@[i].chips == STARTING_CHIPS && t.players@[i].folded == false
                    && t.players@[i].hand@.len() == 2,
            t.pot == 0,
            t.current_bet == FORCED_BET,
            t.stage == Stage::Preflop,
            t.c_cards@.len() == 0,
            t.deck@.len() == 52 - 2 * names@.len(),
            t.cards_distinct(),
            t.card_multiset().len() == 52,
    {
        let mut players: Vec<Player> = Vec::new();
        let n = names.len();
        let mut i: usize = 0;
        while i < n
            invariant
                i <= n,
                n == names@.len(),
                players@.len() == i,
                forall|k: int|
                    0 <= k < i ==> (#[trigger] players@[k]).name@ == names@[k]@
                        && players@[k].chips == STARTING_CHIPS && players@[k].folded == false
                        && players@[k].hand@.len() == 0,
                chips_sum(players@) == i * (STARTING_CHIPS as int),
            decreases n - i,
        {
            let p = Player::new(names[i].clone());
            proof {
                assert(players@.push(p).drop_last() =~= players@);
            }
            players.push(p);
            i += 1;
        }
        let mut t = Table {
            pot: 0,
            players,
            deck: new_deck(),
            c_cards: Vec::new(),
            stage: Stage::River,
            current_bet: 0,
        };
        let r = t.next_round();
        proof {
            broadcast use vstd::seq_lib::group_to_multiset_ensures;

            assert(r is Ok);
            assert(t.card_multiset().len() == 52);
        }
        t
    }

    /// Round reset (entered from table creation and from every
    /// showdown): empties the pot and the board, re-arms the forced
    /// bet, clears every hand and folded flag, and deals two fresh hole
    /// cards to each player from the remaining deck.
    pub fn next_round(&mut self) -> (res: Result<(), DeckError>)
        requires
            old(self).wf(),
        ensures
            final(self).wf(),
            final(self).players@.len() == old(self).players@.len(),
            forall|i: int|
                0 <= i < old(self).players@.len() ==> (#[trigger] final(self).players@[i]).name@
                    == old(self).players@[i].name@
                    && final(self).players@[i].chips == old(self).players@[i].chips,
            res is Err <==> old(self).deck@.len() < 2 * old(self).players@.len(),
            match res {
                Ok(()) => {
                    &&& final(self).pot == 0
                    &&& final(self).current_bet == FORCED_BET
                    &&& final(self).stage == Stage::Preflop
                    &&& final(self).c_cards@.len() == 0
                    &&& final(self).deck@ == old(self).deck@.take(
                        old(self).deck@.len() - 2 * old(self).players@.len(),
                    )
                    &&& forall|i: int|
                        0 <= i < old(self).players@.len()
                            ==> (#[trigger] final(self).players@[i]).hand@ == seq![
                            old(self).deck@[old(self).deck@.len() - 1 - 2 * i],
                            old(self).deck@[old(self).deck@.len() - 2 - 2 * i],
                        ] && final(self).players@[i].folded == false
                    &&& final(self).card_multiset() == old(self).deck@.to_multiset()
                    &&& (old(self).deck@.no_duplicates() ==> final(self).cards_distinct())
                },
                Err(e) => e == DeckError::DeckExhausted && *final(self) == *old(self),
            },
    {
        let n = self.players.len();
        if self.deck.len() < 2 * n {
            return Err(DeckError::DeckExhausted);
        }
        let ghost deck0 = self.deck@;
        let ghost players0 = self.players@;
        let mut i: usize = 0;
        while i < n
            invariant
                i <= n,
                n == self.players@.len(),
                self.players@.len() == players0.len(),
                deck0.len() >= 2 * n,
                self.deck@ =~= deck0.take(deck0.len() - 2 * i),
                forall|k: int|
                    0 <= k < deck0.len() ==> (#[trigger] deck0[k]).wf(),
                forall|k: int|
                    i <= k < n ==> #[trigger] self.players@[k] == players0[k],
                forall|k: int|
                    0 <= k < i ==> (#[trigger] self.players@[k]).name@ == players0[k].name@
                        && self.players@[k].chips == players0[k].chips
                        && self.players@[k].folded == false && self.players@[k].hand@ == seq![
                        deck0[deck0.len() - 1 - 2 * k],
                        deck0[deck0.len() - 2 - 2 * k],
                    ] && self.players@[k].hand_wf(),
                self.pot == old(self).pot,
                self.current_bet == old(self).current_bet,
                self.c_cards == old(self).c_cards,
                self.stage == old(self).stage,
            decreases n - i,
        {
            self.players[i].hand.clear();
            self.players[i].folded = false;
            let c1 = self.deck.pop().unwrap();
            self.players[i].hand.push(c1);
            let c2 = self.deck.pop().unwrap();
            self.players[i].hand.push(c2);
            proof {
                assert(self.deck@ =~= deck0.take(deck0.len() - 2 * (i + 1)));
                assert(deck0.take(deck0.len() - 2 * i).last() == deck0[deck0.len() - 2 * i - 1]);
                assert(self.players@[i as int].hand@ =~= seq![
                    deck0[deck0.len() - 1 - 2 * i],
                    deck0[deck0.len() - 2 - 2 * i],
                ]);
            }
            i += 1;
        }
        self.pot = 0;
        self.current_bet = FORCED_BET;
        self.c_cards.clear();
        self.stage = Stage::Preflop;
        proof {
            broadcast use vstd::seq_lib::group_to_multiset_ensures;
            broadcast use vstd::multiset::group_multiset_axioms;

            lemma_chips_sum_pointwise(self.players@, players0);
            lemma_chips_sum_nonneg(players0);
            lemma_hands_multiset_of_deal(self.players@, deck0);
            let k = deck0.len() - 2 * (n as int);
            assert(deck0.take(k) + deck0.skip(k) =~= deck0);
            vstd::seq_lib::lemma_multiset_commutative(deck0.take(k), deck0.skip(k));
            assert(self.c_cards@ =~= Seq::<Card>::empty());
            assert(self.c_cards@.to_multiset() =~= Multiset::<Card>::empty());
            assert(self.card_multiset() =~= deck0.to_multiset());
            if deck0.no_duplicates() {
                deck0.lemma_multiset_has_no_duplicates();
                assert forall|c: Card| #[trigger] self.card_multiset().count(c) <= 1 by {
                    if deck0.to_multiset().count(c) > 0 {
                        assert(deck0.to_multiset().contains(c));
                    }
                }
            }
        }
        Ok(())
    }

    /// Reveals the three flop cards and opens a fresh betting level.
    pub fn flop(&mut self) -> (res: Result<(), DeckError>)
        requires
            old(self).wf(),
        ensures
            final(self).wf(),
            final(self).players@ == old(self).players@,
            final(self).pot == old(self).pot,
            final(self).stage == old(self).stage,
            final(self).card_multiset() == old(self).card_multiset(),
            res is Err <==> old(self).deck@.len() < 3,
            match res {
                Ok(()) => {
                    &&& final(self).current_bet == 0
                    &&& final(self).c_cards@ =~= old(self).c_cards@ + seq![
                        old(self).deck@[old(self).deck@.len() - 1],
                        old(self).deck@[old(self).deck@.len() - 2],
                        old(self).deck@[old(self).deck@.len() - 3],
                    ]
                    &&& final(self).deck@ == old(self).deck@.take(old(self).deck@.len() - 3)
                },
                Err(e) => e == DeckError::DeckExhausted && *final(self) == *old(self),
            },
    {
        if self.deck.len() < 3 {
            return Err(DeckError::DeckExhausted);
        }
        self.current_bet = 0;
        let ghost deck0 = self.deck@;
        let ghost cc0 = self.c_cards@;
        let c1 = self.deck.pop().unwrap();
        self.c_cards.push(c1);
        let c2 = self.deck.pop().unwrap();
        self.c_cards.push(c2);
        let c3 = self.deck.pop().unwrap();
        self.c_cards.push(c3);
        proof {
            broadcast use vstd::seq_lib::group_to_multiset_ensures;
            broadcast use vstd::multiset::group_multiset_axioms;

            assert(self.deck@ =~= deck0.take(deck0.len() - 3));
            assert(deck0 =~= self.deck@.push(c3).push(c2).push(c1));
            assert(deck0.to_multiset() =~= self.deck@.to_multiset().insert(c3).insert(c2).insert(
                c1,
            ));
            assert(self.c_cards@ =~= cc0.push(c1).push(c2).push(c3));
            assert(self.c_cards@.to_multiset() =~= cc0.to_multiset().insert(c1).insert(c2).insert(
                c3,
            ));
            assert(self.card_multiset() =~= old(self).card_multiset());
        }
        Ok(())
    }

    /// Reveals one more community card and opens a fresh betting level.
    fn deal_street(&mut self) -> (res: Result<(), DeckError>)
        requires
            old(self).wf(),
        ensures
            final(self).wf(),
            final(self).players@ == old(self).players@,
            final(self).pot == old(self).pot,
            final(self).stage == old(self).stage,
            final(self).card_multiset() == old(self).card_multiset(),
            res is Err <==> old(self).deck@.len() < 1,
            match res {
                Ok(()) => {
                    &&& final(self).current_bet == 0
                    &&& final(self).c_cards@ =~= old(self).c_cards@.push(
                        old(self).deck@[old(self).deck@.len() - 1],
                    )
                    &&& final(self).deck@ == old(self).deck@.take(old(self).deck@.len() - 1)
                },
                Err(e) => e == DeckError::DeckExhausted && *final(self) == *old(self),
            },
    {
        if self.deck.len() < 1 {
            return Err(DeckError::DeckExhausted);
        }
        self.current_bet = 0;
        let ghost deck0 = self.deck@;
        let ghost cc0 = self.c_cards@;
        let c = self.deck.pop().unwrap();
        self.c_cards.push(c);
        proof {
            broadcast use vstd::seq_lib::group_to_multiset_ensures;
            broadcast use vstd::multiset::group_multiset_axioms;

            assert(self.deck@ =~= deck0.take(deck0.len() - 1));
            assert(deck0 =~= self.deck@.push(c));
            assert(deck0.to_multiset() =~= self.deck@.to_multiset().insert(c));
            assert(self.c_cards@.to_multiset() =~= cc0.to_multiset().insert(c));
            assert(self.card_multiset() =~= old(self).card_multiset());
        }
        Ok(())
    }

    /// The cards this stage's exit turns over: the deck's top cards,
    /// in the order they are revealed.
    pub open spec fn revealed_cards(self) -> Seq<Card> {
        let m = self.deck@.len() as int;
        if self.stage == Stage::Preflop {
            seq![self.deck@[m - 1], self.deck@[m - 2], self.deck@[m - 3]]
        } else if self.stage == Stage::Flop || self.stage == Stage::Turn {
            seq![self.deck@[m - 1]]
        } else {
            Seq::<Card>::empty()
        }
    }

    /// Advances the state machine one stage: leaving Preflop reveals
    /// the flop, leaving Flop the turn card, leaving Turn the river
    /// card, and each of those re-opens betting at zero; leaving River
    /// reaches Showdown with the board complete. Showdown itself is
    /// resolved by the pay-out functions and `next_round`.
    pub fn next_stage(&mut self) -> (res: Result<(), DeckError>)
        requires
            old(self).wf(),
            old(self).stage != Stage::Showdown,
        ensures
            final(self).wf(),
            final(self).players@ == old(self).players@,
            final(self).pot == old(self).pot,
            final(self).card_multiset() == old(self).card_multiset(),
            res is Err <==> old(self).deck@.len() < cards_revealed(old(self).stage),
            match res {
                Ok(()) => reveal_step(*old(self), *final(self)),
                Err(e) => e == DeckError::DeckExhausted && *final(self) == *old(self),
            },
    {
        match self.stage {
            Stage::Preflop => {
                let r = self.flop();
                if r.is_ok() {
                    self.stage = Stage::Flop;
                    Ok(())
                } else {
                    r
                }
            },
            Stage::Flop => {
                let r = self.deal_street();
                if r.is_ok() {
                    self.stage = Stage::Turn;
                    proof {
                        assert(self.c_cards@ =~= old(self).c_cards@ + old(self).revealed_cards());
                    }
                    Ok(())
                } else {
                    r
                }
            },
            Stage::Turn => {
                let r = self.deal_street();
                if r.is_ok() {
                    self.stage = Stage::River;
                    proof {
                        assert(self.c_cards@ =~= old(self).c_cards@ + old(self).revealed_cards());
                    }
                    Ok(())
                } else {
                    r
                }
            },
            Stage::River => {
                self.stage = Stage::Showdown;
                proof {
                    assert(self.deck@ =~= old(self).deck@.take(old(self).deck@.len() as int));
                    assert(self.c_cards@ =~= old(self).c_cards@ + old(self).revealed_cards());
                }
                Ok(())
            },
            Stage::Showdown => {
                // unreachable under the precondition
                Ok(())
            },
        }
    }
}

/// One betting cycle among the non-folded players: who has matched the
/// current bet since it was last raised, whose turn it is, and what
/// each seat has paid into the pot so far.
pub struct BettingRound {
    /// Per seat: the bet level this player last matched, unset until
    /// the player first acts.
    pub matched: Vec<Option<u32>>,
    /// The seat to act next (folded seats are passed over).
    pub turn: usize,
    /// Per seat: the chips this player has paid into the pot since the
    /// cycle began.
    pub paid: Vec<u32>,
    /// Chips paid into the pot by all players since the cycle began;
    /// always the sum of `paid`.
    pub total_paid: u32,
}

/// Total of a sequence of chip amounts.
pub open spec fn paid_sum(s: Seq<u32>) -> int
    decreases s.len(),
{
    if s.len() == 0 {
        0
    } else {
        paid_sum(s.drop_last()) + s.last()
    }
}

proof fn lemma_paid_sum_bound(s: Seq<u32>, i: int)
    requires
        0 <= i < s.len(),
    ensures
        paid_sum(s) >= s[i],
        paid_sum(s) >= 0,
    decreases s.len(),
{
    if s.len() > 0 {
        if i < s.len() - 1 {
            lemma_paid_sum_bound(s.drop_last(), i);
        } else if s.len() > 1 {
            lemma_paid_sum_bound(s.drop_last(), 0);
        }
    }
}

proof fn lemma_paid_sum_update(s: Seq<u32>, i: int, v: u32)
    requires
        0 <= i < s.len(),
    ensures
        paid_sum(s.update(i, v)) == paid_sum(s) - s[i] + v,
    decreases s.len(),
{
    if i == s.len() - 1 {
        assert(s.update(i, v).drop_last() =~= s.drop_last());
    } else {
        assert(s.update(i, v).drop_last() =~= s.drop_last().update(i, v));
        lemma_paid_sum_update(s.drop_last(), i, v);
    }
}

/// Seat distance from `s` forward (wrapping) to `i` at a table of `n`
/// seats.
pub open spec fn seat_distance(s: int, i: int, n: int) -> int {
    if i >= s {
        i - s
    } else {
        i - s + n
    }
}

/// The seat `j` places after seat `s` at a table of `n` seats,
/// wrapping past the last seat.
pub open spec fn wrap_seat(s: int, j: int, n: int) -> int {
    if s + j >= n {
        s + j - n
    } else {
        s + j
    }
}

impl Table {
    pub open spec fn round_wf(self, r: BettingRound) -> bool {
        &&& r.matched@.len() == self.players@.len()
        &&& r.paid@.len() == self.players@.len()
        &&& r.turn < self.players@.len()
        &&& r.total_paid == paid_sum(r.paid@)
        &&& r.total_paid <= self.pot
    }

    /// All betting in the cycle is settled: every non-folded player has
    /// matched the current bet.
    pub open spec fn spec_betting_done(self, r: BettingRound) -> bool {
        forall|i: int|
            0 <= i < self.players@.len() && !self.players@[i].folded ==> #[trigger] r.matched@[i]
                == Some(self.current_bet)
    }

    /// What an action costs the acting player: nothing to fold or to
    /// check at bet zero, the current bet to call, the named amount to
    /// raise.
    pub open spec fn action_cost(self, a: Action) -> u32 {
        match a {
            Action::Fold => 0u32,
            Action::Check => self.current_bet,
            Action::Call => self.current_bet,
            Action::Raise(amount) => amount,
        }
    }

    /// A raise below the current bet is illegal.
    pub open spec fn raise_too_small(self, a: Action) -> bool {
        a matches Action::Raise(amount) && amount < self.current_bet
    }

    /// Opens a betting cycle: nobody has matched anything yet, nothing
    /// has been paid, and seat 0 acts first.
    pub fn begin_betting(&self) -> (r: BettingRound)
        requires
            self.wf(),
        ensures
            self.round_wf(r),
            r.turn == 0,
            r.total_paid == 0,
            forall|i: int| 0 <= i < self.players@.len() ==> #[trigger] r.matched@[i] is None,
            forall|i: int| 0 <= i < self.players@.len() ==> #[trigger] r.paid@[i] == 0,
    {
        let n = self.players.len();
        let mut matched: Vec<Option<u32>> = Vec::new();
        let mut paid: Vec<u32> = Vec::new();
        let mut i: usize = 0;
        while i < n
            invariant
                i <= n,
                matched@.len() == i,
                paid@.len() == i,
                forall|k: int| 0 <= k < i ==> #[trigger] matched@[k] is None,
                forall|k: int| 0 <= k < i ==> #[trigger] paid@[k] == 0,
                paid_sum(paid@) == 0,
            decreases n - i,
        {
            matched.push(None);
            proof {
                assert(paid@.push(0u32).drop_last() =~= paid@);
            }
            paid.push(0);
            i += 1;
        }
        BettingRound { matched, turn: 0, paid, total_paid: 0 }
    }

    /// Whether the betting cycle is settled.
    pub fn betting_done(&self, r: &BettingRound) -> (done: bool)
        requires
            self.wf(),
            self.round_wf(*r),
        ensures
            done == self.spec_betting_done(*r),
    {
        let n = self.players.len();
        let mut i: usize = 0;
        while i < n
            invariant
                i <= n,
                n == self.players@.len(),
                self.round_wf(*r),
                forall|k: int|
                    0 <= k < i && !self.players@[k].folded ==> #[trigger] r.matched@[k] == Some(
                        self.current_bet,
                    ),
            decreases n - i,
        {
            if !self.players[i].folded {
                match r.matched[i] {
                    Some(v) => {
                        if v != self.current_bet {
                            return false;
                        }
                    },
                    None => {
                        return false;
                    },
                }
            }
            i += 1;
        }
        true
    }

    /// The seat to act: the non-folded seat closest after (or at)
    /// `r.turn` in table order, or `None` when everyone has folded.
    pub fn actor(&self, r: &BettingRound) -> (res: Option<usize>)
        requires
            self.wf(),
            self.round_wf(*r),
        ensures
            match res {
                Some(i) => {
                    &&& i < self.players@.len()
                    &&& !self.players@[i as int].folded
                    &&& forall|k: int|
                        0 <= k < self.players@.len() && !(#[trigger] self.players@[k]).folded
                            ==> seat_distance(r.turn as int, i as int, self.players@.len() as int)
                            <= seat_distance(r.turn as int, k, self.players@.len() as int)
                },
                None => forall|k: int|
                    0 <= k < self.players@.len() ==> (#[trigger] self.players@[k]).folded,
            },
    {
        let n = self.players.len();
        let mut j: usize = 0;
        while j < n
            invariant
                j <= n,
                n == self.players@.len(),
                self.wf(),
                r.turn < n,
                forall|j2: int|
                    0 <= j2 < j ==> self.players@[#[trigger] wrap_seat(
                        r.turn as int,
                        j2,
                        n as int,
                    )].folded,
            decreases n - j,
        {
            let i = if r.turn + j >= n {
                r.turn + j - n
            } else {
                r.turn + j
            };
            proof {
                assert(i == wrap_seat(r.turn as int, j as int, n as int));
            }
            if !self.players[i].folded {
                proof {
                    assert forall|k: int|
                        0 <= k < n && !(#[trigger] self.players@[k]).folded implies seat_distance(
                        r.turn as int,
                        i as int,
                        n as int,
                    ) <= seat_distance(r.turn as int, k, n as int) by {
                        let c = seat_distance(r.turn as int, k, n as int);
                        assert(0 <= c < n);
                        if c < j {
                            assert(k == wrap_seat(r.turn as int, c, n as int));
                        }
                    }
                }
                return Some(i);
            }
            j += 1;
        }
        proof {
            assert forall|k: int| 0 <= k < n implies (#[trigger] self.players@[k]).folded by {
                let c = seat_distance(r.turn as int, k, n as int);
                assert(0 <= c < n);
                assert(k == wrap_seat(r.turn as int, c, n as int));
            }
        }
        None
    }

    /// Applies one player's betting action.
    ///
    /// A fold costs nothing and marks the player out of the round. A
    /// check at bet zero stands; at a positive bet it is reinterpreted
    /// as a call, as a call at bet zero is a check. A call pays the
    /// full current bet; a raise pays the named amount, which must be
    /// at least the current bet, and becomes the new current bet.
    ///
    /// An illegal action (a raise below the current bet, or a cost
    /// above the player's stack) is rejected with the table and the
    /// cycle untouched, so a player's stack can never go below zero.
    /// Every chip paid moves from the acting player's stack into the
    /// pot: the pot always equals its value when the cycle began plus
    /// `total_paid`, and the table's total money never changes.
    pub fn apply_action(&mut self, r: &mut BettingRound, seat: usize, action: Action) -> (res:
        Result<u32, BetError>)
        requires
            old(self).wf(),
            old(self).round_wf(*old(r)),
            seat < old(self).players@.len(),
            !old(self).players@[seat as int].folded,
        ensures
            final(self).wf(),
            final(self).round_wf(*final(r)),
            final(self).money() == old(self).money(),
            final(self).card_multiset() == old(self).card_multiset(),
            final(self).pot - final(r).total_paid == old(self).pot - old(r).total_paid,
            final(self).current_bet >= old(self).current_bet,
            final(self).players@.len() == old(self).players@.len(),
            final(self).deck == old(self).deck,
            final(self).c_cards == old(self).c_cards,
            final(self).stage == old(self).stage,
            forall|k: int|
                0 <= k < old(self).players@.len() && k != seat
                    ==> #[trigger] final(self).players@[k] == old(self).players@[k]
                    && final(r).matched@[k] == old(r).matched@[k]
                    && final(r).paid@[k] == old(r).paid@[k],
            final(self).players@[seat as int].name == old(self).players@[seat as int].name,
            final(self).players@[seat as int].hand == old(self).players@[seat as int].hand,
            final(self).pot - paid_sum(final(r).paid@) == old(self).pot - paid_sum(old(r).paid@),
            res == (if old(self).raise_too_small(action) {
                Result::<u32, BetError>::Err(BetError::RaiseTooSmall)
            } else if old(self).action_cost(action) > old(self).players@[seat as int].chips {
                Result::<u32, BetError>::Err(BetError::InsufficientChips)
            } else {
                Result::<u32, BetError>::Ok(old(self).action_cost(action))
            }),
            match res {
                Ok(paid) => {
                    &&& paid == old(self).action_cost(action)
                    &&& final(self).pot == old(self).pot + paid
                    &&& final(r).total_paid == old(r).total_paid + paid
                    &&& final(r).paid@[seat as int] == old(r).paid@[seat as int] + paid
                    &&& final(self).players@[seat as int].chips == old(self).players@[seat
                        as int].chips - paid
                    &&& final(r).turn == (if seat + 1 == old(self).players@.len() {
                        0int
                    } else {
                        seat + 1
                    })
                    &&& match action {
                        Action::Fold => {
                            &&& final(self).players@[seat as int].folded
                            &&& final(self).current_bet == old(self).current_bet
                            &&& final(r).matched@[seat as int] == old(r).matched@[seat as int]
                        },
                        Action::Check | Action::Call => {
                            &&& !final(self).players@[seat as int].folded
                            &&& final(self).current_bet == old(self).current_bet
                            &&& final(r).matched@[seat as int] == Some(old(self).current_bet)
                        },
                        Action::Raise(amount) => {
                            &&& !final(self).players@[seat as int].folded
                            &&& amount >= old(self).current_bet
                            &&& final(self).current_bet == amount
                            &&& final(r).matched@[seat as int] == Some(amount)
                        },
                    }
                },
                Err(_) => *final(self) == *old(self) && *final(r) == *old(r),
            },
    {
        let n = self.players.len();
        if let Action::Raise(amount) = action {
            if amount < self.current_bet {
                return Err(BetError::RaiseTooSmall);
            }
        }
        let cost = match action {
            Action::Fold => 0,
            Action::Check => self.current_bet,
            Action::Call => self.current_bet,
            Action::Raise(amount) => amount,
        };
        if cost > self.players[seat].chips {
            return Err(BetError::InsufficientChips);
        }
        proof {
            lemma_chips_sum_bound(self.players@, seat as int);
            lemma_paid_sum_bound(r.paid@, seat as int);
        }
        let ghost players0 = self.players@;
        let ghost paid0 = r.paid@;
        match action {
            Action::Fold => {
                self.players[seat].folded = true;
            },
            Action::Check | Action::Call => {
                self.players[seat].chips = self.players[seat].chips - cost;
                self.pot = self.pot + cost;
                r.total_paid = r.total_paid + cost;
                r.paid[seat] = r.paid[seat] + cost;
                r.matched[seat] = Some(cost);
            },
            Action::Raise(amount) => {
                self.players[seat].chips = self.players[seat].chips - amount;
                self.pot = self.pot + amount;
                r.total_paid = r.total_paid + amount;
                r.paid[seat] = r.paid[seat] + amount;
                self.current_bet = amount;
                r.matched[seat] = Some(amount);
            },
        }
        proof {
            lemma_paid_sum_update(paid0, seat as int, r.paid@[seat as int]);
            assert(r.paid@ =~= paid0.update(seat as int, r.paid@[seat as int]));
        }
        let next = seat + 1;
        r.turn = if next == n {
            0
        } else {
            next
        };
        proof {
            lemma_chips_sum_update(players0, seat as int, self.players@[seat as int]);
            assert(self.players@ =~= players0.update(seat as int, self.players@[seat as int]));
            lemma_hands_multiset_pointwise(self.players@, players0);
        }
        Ok(cost)
    }
}

/// The comma-joined wire codes of a card sequence, e.g. `AH,AD`.
pub open spec fn codes_joined(cards: Seq<Card>) -> Seq<char>
    decreases cards.len(),
{
    if cards.len() == 0 {
        Seq::<char>::empty()
    } else if cards.len() == 1 {
        cards[0].code()
    } else {
        codes_joined(cards.drop_last()) + seq![','] + cards.last().code()
    }
}

/// Builds the comma-joined wire codes of the given cards.
pub fn join_codes(cards: &Vec<Card>) -> (r: String)
    ensures
        r@ == codes_joined(cards@),
{
    let mut s = String::new();
    let n = cards.len();
    let mut i: usize = 0;
    while i < n
        invariant
            i <= n,
            n == cards@.len(),
            s@ =~= codes_joined(cards@.take(i as int)),
        decreases n - i,
    {
        if i > 0 {
            push_char(&mut s, ',');
        }
        let code = cards[i].code_string();
        s.append(code.as_str());
        proof {
            assert(cards@.take(i + 1).drop_last() =~= cards@.take(i as int));
            assert(cards@.take(i + 1).last() == cards@[i as int]);
            assert(s@ =~= codes_joined(cards@.take(i + 1)));
        }
        i += 1;
    }
    proof {
        assert(cards@.take(n as int) =~= cards@);
    }
    s
}

/// The space-joined human-readable forms of a card sequence, e.g.
/// `10H AS`.
pub open spec fn displays_joined(cards: Seq<Card>) -> Seq<char>
    decreases cards.len(),
{
    if cards.len() == 0 {
        Seq::<char>::empty()
    } else if cards.len() == 1 {
        cards[0].display_code()
    } else {
        displays_joined(cards.drop_last()) + seq![' '] + cards.last().display_code()
    }
}

/// Builds the space-joined human-readable forms of the given cards.
pub fn join_displays(cards: &Vec<Card>) -> (r: String)
    ensures
        r@ == displays_joined(cards@),
{
    let mut s = String::new();
    let n = cards.len();
    let mut i: usize = 0;
    while i < n
        invariant
            i <= n,
            n == cards@.len(),
            s@ =~= displays_joined(cards@.take(i as int)),
        decreases n - i,
    {
        if i > 0 {
            push_char(&mut s, ' ');
        }
        let code = cards[i].display_string();
        s.append(code.as_str());
        proof {
            assert(cards@.take(i + 1).drop_last() =~= cards@.take(i as int));
            assert(cards@.take(i + 1).last() == cards@[i as int]);
            assert(s@ =~= displays_joined(cards@.take(i + 1)));
        }
        i += 1;
    }
    proof {
        assert(cards@.take(n as int) =~= cards@);
    }
    s
}

impl Player {
    /// The wire key of this player's hole cards, used to correlate the
    /// player with the winner resolver's answer.
    pub fn get_cards(&self) -> (r: String)
        ensures
            r@ == codes_joined(self.hand@),
    {
        join_codes(&self.hand)
    }
}

/// The `pc[]` query parameters of the winner-resolver request, one per
/// player in seat order.
pub open spec fn pc_params(ps: Seq<Player>) -> Seq<char>
    decreases ps.len(),
{
    if ps.len() == 0 {
        Seq::<char>::empty()
    } else {
        pc_params(ps.drop_last()) + "&pc[]="@ + codes_joined(ps.last().hand@)
    }
}

/// How many players have not folded.
pub open spec fn active_count(ps: Seq<Player>) -> int
    decreases ps.len(),
{
    if ps.len() == 0 {
        0
    } else {
        active_count(ps.drop_last()) + if ps.last().folded {
            0int
        } else {
            1int
        }
    }
}

proof fn lemma_strict_inc_at_least(s: Seq<usize>, i: int)
    requires
        forall|a: int, b: int| 0 <= a < b < s.len() ==> s[a] < s[b],
        0 <= i < s.len(),
    ensures
        s[i] >= i,
    decreases i,
{
    if i > 0 {
        lemma_strict_inc_at_least(s, i - 1);
    }
}

impl Table {
    /// The full query string of the winner-resolver request: the
    /// community cards under `cc`, then each player's hole cards as a
    /// `pc[]` parameter in seat order.
    pub open spec fn query_spec(self) -> Seq<char> {
        "?cc="@ + codes_joined(self.c_cards@) + pc_params(self.players@)
    }

    /// Builds the winner-resolver query string.
    pub fn showdown_query(&self) -> (r: String)
        ensures
            r@ == self.query_spec(),
    {
        let mut s = String::from_str("?cc=");
        let cc = join_codes(&self.c_cards);
        s.append(cc.as_str());
        let n = self.players.len();
        let mut p: usize = 0;
        while p < n
            invariant
                p <= n,
                n == self.players@.len(),
                s@ =~= "?cc="@ + codes_joined(self.c_cards@) + pc_params(
                    self.players@.take(p as int),
                ),
            decreases n - p,
        {
            s.append("&pc[]=");
            let key = join_codes(&self.players[p].hand);
            s.append(key.as_str());
            proof {
                assert(self.players@.take(p + 1).drop_last() =~= self.players@.take(p as int));
                assert(self.players@.take(p + 1).last() == self.players@[p as int]);
                assert(s@ =~= "?cc="@ + codes_joined(self.c_cards@) + pc_params(
                    self.players@.take(p + 1),
                ));
            }
            p += 1;
        }
        proof {
            assert(self.players@.take(n as int) =~= self.players@);
        }
        s
    }

    /// What the table narrates between turns: the pot, the board, and
    /// the current bet.
    pub open spec fn summary_spec(self) -> Seq<char> {
        "Pot: "@ + crate::text::decimal_digits(self.pot as int) + "\n Cards: "@ + displays_joined(
            self.c_cards@,
        ) + "\nCurrent Bet: "@ + crate::text::decimal_digits(self.current_bet as int) + "\n"@
    }

    /// Builds the between-turns narration of the table.
    pub fn summary(&self) -> (r: String)
        ensures
            r@ == self.summary_spec(),
    {
        let mut s = String::from_str("Pot: ");
        let pot = crate::text::u32_string(self.pot);
        s.append(pot.as_str());
        s.append("\n Cards: ");
        let board = join_displays(&self.c_cards);
        s.append(board.as_str());
        s.append("\nCurrent Bet: ");
        let bet = crate::text::u32_string(self.current_bet);
        s.append(bet.as_str());
        s.append("\n");
        proof {
            assert(s@ =~= self.summary_spec());
        }
        s
    }

    /// Seat `p` is among the winners: some returned winning hand is,
    /// letter for letter, this player's hole-card key.
    pub open spec fn is_winner(self, ws: Seq<String>, p: int) -> bool {
        exists|w: int| 0 <= w < ws.len() && ws[w]@ == codes_joined(self.players@[p].hand@)
    }

    /// The seats whose hole-card key appears among the winning hands
    /// the resolver returned, in ascending seat order.
    pub fn match_winners(&self, winning_cards: &Vec<String>) -> (idxs: Vec<usize>)
        ensures
            forall|j: int|
                0 <= j < idxs@.len() ==> idxs@[j] < self.players@.len() && self.is_winner(
                    winning_cards@,
                    #[trigger] idxs@[j] as int,
                ),
            forall|p: int|
                0 <= p < self.players@.len() && #[trigger] self.is_winner(winning_cards@, p)
                    ==> exists|j: int| 0 <= j < idxs@.len() && idxs@[j] == p,
            forall|a: int, b: int| 0 <= a < b < idxs@.len() ==> idxs@[a] < idxs@[b],
    {
        let n = self.players.len();
        let m = winning_cards.len();
        let mut idxs: Vec<usize> = Vec::new();
        let mut p: usize = 0;
        while p < n
            invariant
                p <= n,
                n == self.players@.len(),
                m == winning_cards@.len(),
                forall|j: int|
                    0 <= j < idxs@.len() ==> idxs@[j] < p && self.is_winner(
                        winning_cards@,
                        #[trigger] idxs@[j] as int,
                    ),
                forall|q: int|
                    0 <= q < p && #[trigger] self.is_winner(winning_cards@, q) ==> exists|j: int|
                        0 <= j < idxs@.len() && idxs@[j] == q,
                forall|a: int, b: int| 0 <= a < b < idxs@.len() ==> idxs@[a] < idxs@[b],
            decreases n - p,
        {
            let key = self.players[p].get_cards();
            let mut found = false;
            let mut w: usize = 0;
            while w < m
                invariant
                    w <= m,
                    m == winning_cards@.len(),
                    key@ == codes_joined(self.players@[p as int].hand@),
                    p < n,
                    n == self.players@.len(),
                    found <==> exists|w2: int|
                        0 <= w2 < w && winning_cards@[w2]@ == codes_joined(
                            self.players@[p as int].hand@,
                        ),
                decreases m - w,
            {
                if !found && key == winning_cards[w] {
                    found = true;
                }
                w += 1;
            }
            let ghost idxs0 = idxs@;
            if found {
                idxs.push(p);
            }
            proof {
                assert forall|q: int|
                    0 <= q <= p as int && #[trigger] self.is_winner(winning_cards@, q)
                        implies exists|j: int| 0 <= j < idxs@.len() && idxs@[j] == q by {
                    if q < p as int {
                        let j = choose|j: int| 0 <= j < idxs0.len() && idxs0[j] == q;
                        assert(idxs@[j] == q);
                    } else {
                        assert(found);
                        assert(idxs@[idxs@.len() - 1] == p as int);
                    }
                }
            }
            p += 1;
        }
        idxs
    }

    /// Pays the pot out to the given seats (ascending, at least one):
    /// every winner receives an equal share, and the remainder of the
    /// division goes to the first winner in seat order. The pot is then
    /// empty; no other stack and nothing else on the table changes.
    pub fn award_pot(&mut self, winners: &Vec<usize>)
        requires
            old(self).wf(),
            winners@.len() >= 1,
            forall|j: int| 0 <= j < winners@.len() ==> winners@[j] < old(self).players@.len(),
            forall|a: int, b: int| 0 <= a < b < winners@.len() ==> winners@[a] < winners@[b],
        ensures
            final(self).wf(),
            final(self).pot == 0,
            final(self).money() == old(self).money(),
            final(self).card_multiset() == old(self).card_multiset(),
            final(self).players@.len() == old(self).players@.len(),
            final(self).deck == old(self).deck,
            final(self).c_cards == old(self).c_cards,
            final(self).stage == old(self).stage,
            final(self).current_bet == old(self).current_bet,
            final(self).players@[winners@[0] as int].chips == old(self).players@[winners@[0]
                as int].chips + old(self).pot / winners@.len() as u32 + old(self).pot
                % winners@.len() as u32,
            forall|j: int|
                1 <= j < winners@.len() ==> final(self).players@[#[trigger] winners@[j] as int].chips
                    == old(self).players@[winners@[j] as int].chips + old(self).pot
                    / winners@.len() as u32,
            forall|p: int|
                0 <= p < old(self).players@.len() && (forall|j: int|
                    0 <= j < winners@.len() ==> winners@[j] != p) ==> final(self).players@[p] == old(
                    self,
                ).players@[p],
            forall|p: int|
                0 <= p < old(self).players@.len() ==> (#[trigger] final(self).players@[p]).name
                    == old(self).players@[p].name && final(self).players@[p].hand == old(
                    self,
                ).players@[p].hand && final(self).players@[p].folded == old(self).players@[p].folded,
    {
        let k = winners.len();
        proof {
            lemma_strict_inc_at_least(winners@, k - 1);
        }
        let share = self.pot / (k as u32);
        let rem = self.pot % (k as u32);
        let ghost players0 = self.players@;
        let ghost pot0 = self.pot as int;
        proof {
            vstd::arithmetic::div_mod::lemma_fundamental_div_mod(pot0, k as int);
        }
        let mut j: usize = 0;
        while j < k
            invariant
                j <= k,
                k == winners@.len(),
                1 <= k <= players0.len(),
                share == pot0 / k as int,
                rem == pot0 % k as int,
                pot0 == k as int * (pot0 / k as int) + pot0 % k as int,
                0 <= pot0 <= u32::MAX,
                self.pot == pot0,
                self.players@.len() == players0.len(),
                forall|jj: int| 0 <= jj < k ==> winners@[jj] < players0.len(),
                forall|a: int, b: int| 0 <= a < b < k ==> winners@[a] < winners@[b],
                chips_sum(players0) + pot0 <= u32::MAX,
                chips_sum(self.players@) == chips_sum(players0) + (if j == 0 {
                    0int
                } else {
                    share * j + rem
                }),
                j >= 1 ==> self.players@[winners@[0] as int].chips == players0[winners@[0]
                    as int].chips + share + rem,
                forall|jj: int|
                    1 <= jj < j ==> self.players@[#[trigger] winners@[jj] as int].chips
                        == players0[winners@[jj] as int].chips + share,
                forall|p: int|
                    0 <= p < players0.len() && (forall|jj: int| 0 <= jj < j ==> winners@[jj] != p)
                        ==> self.players@[p] == players0[p],
                forall|p: int|
                    0 <= p < players0.len() ==> (#[trigger] self.players@[p]).name == players0[p].name
                        && self.players@[p].hand == players0[p].hand && self.players@[p].folded
                        == players0[p].folded,
                self.deck == old(self).deck,
                self.c_cards == old(self).c_cards,
                self.stage == old(self).stage,
                self.current_bet == old(self).current_bet,
                self.cards_wf(),
            decreases k - j,
        {
            let w = winners[j];
            proof {
                assert(share * (j as int) >= 0) by (nonlinear_arith)
                    requires
                        0 <= share as int,
                        0 <= j as int,
                ;
                assert(share * (j as int + 1) + rem <= pot0) by (nonlinear_arith)
                    requires
                        pot0 == k as int * share + rem,
                        0 <= share as int,
                        j as int + 1 <= k as int,
                ;
                assert(share * (j as int + 1) == share * (j as int) + share) by (nonlinear_arith);
                lemma_chips_sum_bound(self.players@, w as int);
                if j > 0 {
                    assert(winners@[0] != w);
                }
            }
            let add = if j == 0 {
                share + rem
            } else {
                share
            };
            let ghost before = self.players@;
            self.players[w].chips = self.players[w].chips + add;
            proof {
                lemma_chips_sum_update(before, w as int, self.players@[w as int]);
                assert(self.players@ =~= before.update(w as int, self.players@[w as int]));
            }
            j += 1;
        }
        self.pot = 0;
        proof {
            assert(share * (k as int) == k as int * share) by (nonlinear_arith);
            assert(chips_sum(self.players@) == chips_sum(players0) + pot0);
            lemma_hands_multiset_pointwise(self.players@, players0);
        }
    }

    /// When every player but one has folded, the last player standing
    /// takes the entire pot at once, with no resolver involved; with
    /// two or more players still in, nothing happens.
    pub fn finish_by_fold(&mut self) -> (res: Option<usize>)
        requires
            old(self).wf(),
        ensures
            final(self).wf(),
            final(self).money() == old(self).money(),
            final(self).card_multiset() == old(self).card_multiset(),
            res is Some <==> active_count(old(self).players@) == 1,
            match res {
                Some(i) => {
                    &&& i < old(self).players@.len()
                    &&& !old(self).players@[i as int].folded
                    &&& final(self).pot == 0
                    &&& final(self).players@[i as int].chips == old(self).players@[i as int].chips
                        + old(self).pot
                    &&& final(self).players@[i as int].name == old(self).players@[i as int].name
                    &&& final(self).players@[i as int].hand == old(self).players@[i as int].hand
                    &&& final(self).players@[i as int].folded == old(self).players@[i as int].folded
                    &&& forall|p: int|
                        0 <= p < old(self).players@.len() && p != i ==> final(self).players@[p]
                            == old(self).players@[p]
                    &&& final(self).deck == old(self).deck
                    &&& final(self).c_cards == old(self).c_cards
                    &&& final(self).stage == old(self).stage
                    &&& final(self).current_bet == old(self).current_bet
                },
                None => *final(self) == *old(self),
            },
    {
        let n = self.players.len();
        let mut count: usize = 0;
        let mut last_active: usize = 0;
        let mut i: usize = 0;
        while i < n
            invariant
                i <= n,
                n == self.players@.len(),
                count == active_count(self.players@.take(i as int)),
                count <= i,
                count >= 1 ==> last_active < i && !self.players@[last_active as int].folded,
            decreases n - i,
        {
            proof {
                assert(self.players@.take(i + 1).drop_last() =~= self.players@.take(i as int));
                assert(self.players@.take(i + 1).last() == self.players@[i as int]);
            }
            if !self.players[i].folded {
                count += 1;
                last_active = i;
            }
            i += 1;
        }
        proof {
            assert(self.players@.take(n as int) =~= self.players@);
        }
        if count != 1 {
            return None;
        }
        proof {
            lemma_chips_sum_bound(self.players@, last_active as int);
        }
        let ghost players0 = self.players@;
        self.players[last_active].chips = self.players[last_active].chips + self.pot;
        self.pot = 0;
        proof {
            lemma_chips_sum_update(players0, last_active as int, self.players@[last_active as int]);
            assert(self.players@ =~= players0.update(
                last_active as int,
                self.players@[last_active as int],
            ));
            lemma_hands_multiset_pointwise(self.players@, players0);
        }
        Some(last_active)
    }
}

/// One successful reveal of the stage machine, as `next_stage` performs
/// it: the stage advances one step, the revealed cards move from the
/// top of the deck to the end of the board, betting reopens at zero
/// (except for the cardless step onto Showdown), and the players and
/// the pot are untouched.
pub open spec fn reveal_step(pre: Table, post: Table) -> bool {
    &&& pre.stage != Stage::Showdown
    &&& pre.deck@.len() >= cards_revealed(pre.stage)
    &&& post.stage == stage_after(pre.stage)
    &&& post.c_cards@ == pre.c_cards@ + pre.revealed_cards()
    &&& post.deck@ == pre.deck@.take(pre.deck@.len() - cards_revealed(pre.stage))
    &&& post.players@ == pre.players@
    &&& post.pot == pre.pot
    &&& (pre.stage != Stage::River ==> post.current_bet == 0)
    &&& (pre.stage == Stage::River ==> post.current_bet == pre.current_bet)
}

/// A round with no folds runs the board out in exactly the order
/// Preflop, Flop, Turn, River, Showdown: from a Preflop table with an
/// empty board and at least five cards in the deck, three reveals pass
/// through Flop, Turn and River, the board grows 0 to 3 to 4 to 5, each
/// reveal leaves the deck long enough for the next, and the reveal out
/// of River reaches Showdown with the board unchanged.
pub proof fn lemma_no_fold_round(t0: Table, t1: Table, t2: Table, t3: Table, t4: Table)
    requires
        t0.stage == Stage::Preflop,
        t0.c_cards@.len() == 0,
        t0.deck@.len() >= 5,
        reveal_step(t0, t1),
        reveal_step(t1, t2),
        reveal_step(t2, t3),
        reveal_step(t3, t4),
    ensures
        t1.stage == Stage::Flop && t1.c_cards@.len() == 3,
        t2.stage == Stage::Turn && t2.c_cards@.len() == 4,
        t3.stage == Stage::River && t3.c_cards@.len() == 5,
        t4.stage == Stage::Showdown && t4.c_cards@.len() == 5,
        t1.deck@.len() >= cards_revealed(t1.stage),
        t2.deck@.len() >= cards_revealed(t2.stage),
        t3.deck@.len() >= cards_revealed(t3.stage),
        t4.deck@.len() == t0.deck@.len() - 5,
{
}

/// The stage sequence of a round: Preflop, Flop, Turn, River, Showdown,
/// in that order, and a round reset takes Showdown back to Preflop.
pub proof fn lemma_stage_sequence()
    ensures
        stage_after(Stage::Preflop) == Stage::Flop,
        stage_after(Stage::Flop) == Stage::Turn,
        stage_after(Stage::Turn) == Stage::River,
        stage_after(Stage::River) == Stage::Showdown,
        stage_after(Stage::Showdown) == Stage::Preflop,
{
}

} // verus!
