//! Playing cards and the deck source: a full deck holds 52 distinct
//! well-formed cards and is handed out in a random order.

use vstd::prelude::*;
use rand::seq::SliceRandom;

verus! {

/// A playing card: a rank character from `23456789TJQKA` and a suit
/// character from `CDHS`.
#[derive(Clone, Copy, Debug, PartialEq, Eq, Structural)]
pub struct Card {
    pub rank: char,
    pub suit: char,
}

pub open spec fn valid_rank(c: char) -> bool {
    c == '2' || c == '3' || c == '4' || c == '5' || c == '6' || c == '7' || c == '8' || c == '9'
        || c == 'T' || c == 'J' || c == 'Q' || c == 'K' || c == 'A'
}

pub open spec fn valid_suit(c: char) -> bool {
    c == 'C' || c == 'D' || c == 'H' || c == 'S'
}

impl Card {
    pub open spec fn wf(self) -> bool {
        valid_rank(self.rank) && valid_suit(self.suit)
    }

    /// The two-character wire code, e.g. `TH` for the ten of hearts.
    pub open spec fn code(self) -> Seq<char> {
        seq![self.rank, self.suit]
    }

    /// The human-readable form: as the wire code, except that rank `T`
    /// is written out as `10`.
    pub open spec fn display_code(self) -> Seq<char> {
        if self.rank == 'T' {
            seq!['1', '0', self.suit]
        } else {
            seq![self.rank, self.suit]
        }
    }

    pub fn code_string(&self) -> (r: String)
        ensures
            r@ == self.code(),
    {
        let mut s = String::new();
        push_char(&mut s, self.rank);
        push_char(&mut s, self.suit);
        proof {
            assert(s@ =~= self.code());
        }
        s
    }

    pub fn display_string(&self) -> (r: String)
        ensures
            r@ == self.display_code(),
    {
        let mut s = String::new();
        if self.rank == 'T' {
            push_char(&mut s, '1');
            push_char(&mut s, '0');
        } else {
            push_char(&mut s, self.rank);
        }
        push_char(&mut s, self.suit);
        proof {
            assert(s@ =~= self.display_code());
        }
        s
    }
}

/// The rank character for each of the 13 rank positions, in ascending
/// rank order.
pub open spec fn rank_of(i: int) -> char {
    if i == 0 {
        '2'
    } else if i == 1 {
        '3'
    } else if i == 2 {
        '4'
    } else if i == 3 {
        '5'
    } else if i == 4 {
        '6'
    } else if i == 5 {
        '7'
    } else if i == 6 {
        '8'
    } else if i == 7 {
        '9'
    } else if i == 8 {
        'T'
    } else if i == 9 {
        'J'
    } else if i == 10 {
        'Q'
    } else if i == 11 {
        'K'
    } else {
        'A'
    }
}

/// The suit character for each of the 4 suit positions.
pub open spec fn suit_of(i: int) -> char {
    if i == 0 {
        'C'
    } else if i == 1 {
        'D'
    } else if i == 2 {
        'H'
    } else {
        'S'
    }
}

/// The card at position `k` of the unshuffled deck, laid out suit-fastest.
pub open spec fn card_at(k: int) -> Card {
    Card { rank: rank_of(k / 4), suit: suit_of(k % 4) }
}

fn rank_char(i: usize) -> (c: char)
    requires
        i < 13,
    ensures
        c == rank_of(i as int),
{
    if i == 0 {
        '2'
    } else if i == 1 {
        '3'
    } else if i == 2 {
        '4'
    } else if i == 3 {
        '5'
    } else if i == 4 {
        '6'
    } else if i == 5 {
        '7'
    } else if i == 6 {
        '8'
    } else if i == 7 {
        '9'
    } else if i == 8 {
        'T'
    } else if i == 9 {
        'J'
    } else if i == 10 {
        'Q'
    } else if i == 11 {
        'K'
    } else {
        'A'
    }
}

fn suit_char(i: usize) -> (c: char)
    requires
        i < 4,
    ensures
        c == suit_of(i as int),
{
    if i == 0 {
        'C'
    } else if i == 1 {
        'D'
    } else if i == 2 {
        'H'
    } else {
        'S'
    }
}

/// The rank position of a valid rank character.
pub open spec fn rank_index(c: char) -> int {
    if c == '2' {
        0
    } else if c == '3' {
        1
    } else if c == '4' {
        2
    } else if c == '5' {
        3
    } else if c == '6' {
        4
    } else if c == '7' {
        5
    } else if c == '8' {
        6
    } else if c == '9' {
        7
    } else if c == 'T' {
        8
    } else if c == 'J' {
        9
    } else if c == 'Q' {
        10
    } else if c == 'K' {
        11
    } else {
        12
    }
}

/// The suit position of a valid suit character.
pub open spec fn suit_index(c: char) -> int {
    if c == 'C' {
        0
    } else if c == 'D' {
        1
    } else if c == 'H' {
        2
    } else {
        3
    }
}

/// Every well-formed card has a position in the unshuffled deck.
proof fn lemma_deck_complete(c: Card)
    requires
        c.wf(),
    ensures
        exists|k: int| 0 <= k < 52 && card_at(k) == c,
{
    let r = rank_index(c.rank);
    let s = suit_index(c.suit);
    let k = 4 * r + s;
    assert(0 <= r < 13 && 0 <= s < 4);
    assert(k / 4 == r && k % 4 == s) by (nonlinear_arith)
        requires
            0 <= r < 13,
            0 <= s < 4,
            k == 4 * r + s,
    ;
    assert(rank_of(r) == c.rank);
    assert(suit_of(s) == c.suit);
    assert(0 <= k < 52 && card_at(k) == c);
}

proof fn lemma_card_at_distinct(i: int, j: int)
    requires
        0 <= i < 52,
        0 <= j < 52,
        i != j,
    ensures
        card_at(i) != card_at(j),
{
    if i / 4 == j / 4 {
        assert(i % 4 != j % 4) by {
            vstd::arithmetic::div_mod::lemma_fundamental_div_mod(i, 4);
            vstd::arithmetic::div_mod::lemma_fundamental_div_mod(j, 4);
        }
        assert(suit_of(i % 4) != suit_of(j % 4));
    } else {
        assert(0 <= i / 4 < 13 && 0 <= j / 4 < 13);
        assert(rank_of(i / 4) != rank_of(j / 4));
    }
}

/// Produces the full deck in a random order: 52 distinct well-formed
/// cards, among them every well-formed card, so each rank-suit pair
/// exactly once.
pub fn new_deck() -> (d: Vec<Card>)
    ensures
        d@.len() == 52,
        forall|i: int| 0 <= i < 52 ==> (#[trigger] d@[i]).wf(),
        d@.no_duplicates(),
        forall|c: Card| c.wf() ==> d@.contains(c),
{
    let mut d: Vec<Card> = Vec::new();
    let mut n: usize = 0;
    while n < 52
        invariant
            n <= 52,
            d@.len() == n,
            forall|k: int| 0 <= k < n ==> d@[k] == card_at(k),
        decreases 52 - n,
    {
        d.push(Card { rank: rank_char(n / 4), suit: suit_char(n % 4) });
        n += 1;
    }
    proof {
        assert forall|i: int, j: int| 0 <= i < j < 52 implies d@[i] != d@[j] by {
            lemma_card_at_distinct(i, j);
        }
        assert(d@.no_duplicates());
        assert forall|i: int| 0 <= i < 52 implies (#[trigger] d@[i]).wf() by {
            assert(d@[i] == card_at(i));
        }
        assert forall|c: Card| c.wf() implies d@.contains(c) by {
            lemma_deck_complete(c);
            let k = choose|k: int| 0 <= k < 52 && card_at(k) == c;
            assert(d@[k] == c);
        }
    }
    shuffle_cards(&mut d);
    proof {
        lemma_permutation_keeps_deck_shape(d@);
    }
    d
}

/// A rearrangement of a full deck keeps its length, the well-formedness
/// of every card, the absence of duplicates, and which cards it holds.
proof fn lemma_permutation_keeps_deck_shape(d: Seq<Card>)
    requires
        exists|pre: Seq<Card>|
            d.to_multiset() == pre.to_multiset() && pre.len() == 52 && pre.no_duplicates()
                && (forall|i: int| 0 <= i < pre.len() ==> (#[trigger] pre[i]).wf())
                && (forall|c: Card| c.wf() ==> pre.contains(c)),
    ensures
        d.len() == 52,
        forall|i: int| 0 <= i < 52 ==> (#[trigger] d[i]).wf(),
        d.no_duplicates(),
        forall|c: Card| c.wf() ==> d.contains(c),
{
    broadcast use vstd::seq_lib::group_to_multiset_ensures;

    let pre = choose|pre: Seq<Card>|
        d.to_multiset() == pre.to_multiset() && pre.len() == 52 && pre.no_duplicates()
            && (forall|i: int| 0 <= i < pre.len() ==> (#[trigger] pre[i]).wf())
            && (forall|c: Card| c.wf() ==> pre.contains(c));
    assert(d.len() == d.to_multiset().len());
    assert(pre.len() == pre.to_multiset().len());
    pre.lemma_multiset_has_no_duplicates();
    assert forall|x: Card| d.to_multiset().contains(x) implies d.to_multiset().count(x) == 1 by {
        assert(pre.to_multiset().contains(x));
    }
    d.lemma_multiset_has_no_duplicates_conv();
    assert forall|i: int| 0 <= i < 52 implies (#[trigger] d[i]).wf() by {
        assert(d.to_multiset().contains(d[i]));
        assert(pre.to_multiset().contains(d[i]));
        assert(pre.contains(d[i]));
        let j = choose|j: int| 0 <= j < pre.len() && pre[j] == d[i];
        assert(pre[j].wf());
    }
    assert forall|c: Card| c.wf() implies d.contains(c) by {
        assert(pre.contains(c));
        assert(pre.to_multiset().contains(c));
        assert(d.to_multiset().contains(c));
    }
}

/// Relies on rand's `SliceRandom::shuffle`: it permutes the slice in
/// place, so the cards after the call are a rearrangement of the cards
/// before it.
#[verifier::external_body]
fn shuffle_cards(d: &mut Vec<Card>)
    ensures
        final(d)@.to_multiset() == old(d)@.to_multiset(),
        final(d)@.len() == old(d)@.len(),
{
    d.shuffle(&mut rand::rng())
}

/// Relies on `String::push`: it appends exactly one character at the
/// end of the string.
#[verifier::external_body]
pub(crate) fn push_char(s: &mut String, c: char)
    ensures
        final(s)@ == old(s)@.push(c),
{
    s.push(c)
}

} // verus!
