use rand::seq::SliceRandom;
use vstd::prelude::*;

use crate::card::{card_at, card_rank, lemma_card_at_rank, lemma_rank_card_at, Card};
use crate::property::Property;

verus! {

/// The number of distinct cards: three values in each of four dimensions.
pub const DECK_SIZE: usize = 81;

/// Every card exactly once, in the order of their ranks.
pub open spec fn full_deck() -> Seq<Card> {
    Seq::new(DECK_SIZE as nat, |i: int| card_at(i))
}

/// `a` holds the same cards as `b`, each as often, in any order.
pub open spec fn is_permutation(a: Seq<Card>, b: Seq<Card>) -> bool {
    a.to_multiset() == b.to_multiset()
}

/// Relies on rand's `SliceRandom::shuffle` with the thread-local generator:
/// it only swaps elements, so the result is a permutation of the input.
#[verifier::external_body]
fn shuffle_cards(cards: &mut Vec<Card>)
    ensures
        is_permutation(final(cards)@, old(cards)@),
        final(cards)@.len() == old(cards)@.len(),
{
    cards.shuffle(&mut rand::thread_rng());
}

/// All 81 cards, ordered by rank: shape varies slowest, count fastest.
pub fn build_deck() -> (r: Vec<Card>)
    ensures
        r@ == full_deck(),
{
    let mut cards: Vec<Card> = Vec::new();
    let mut i: usize = 0;
    while i < DECK_SIZE
        invariant
            i <= DECK_SIZE,
            cards@ == full_deck().take(i as int),
        decreases DECK_SIZE - i,
    {
        let card = Card::new(
            Property::from_index(i / 27),
            Property::from_index((i % 27) / 9),
            Property::from_index((i % 9) / 3),
            Property::from_index(i % 3),
        );
        cards.push(card);
        i = i + 1;
        assert(cards@ =~= full_deck().take(i as int));
    }
    assert(cards@ =~= full_deck());
    cards
}

/// The ordered deck holds every card, exactly once, and nothing else.
pub proof fn lemma_full_deck_complete()
    ensures
        full_deck().len() == 81,
        full_deck().no_duplicates(),
        forall|c: Card| #[trigger] full_deck().contains(c),
        forall|c: Card| #[trigger] full_deck().to_multiset().count(c) == 1,
{
    let d = full_deck();
    assert forall|i: int, j: int| 0 <= i < d.len() && 0 <= j < d.len() && i != j implies d[i]
        != d[j] by {
        lemma_rank_card_at(i);
        lemma_rank_card_at(j);
    }
    assert forall|c: Card| #[trigger] d.contains(c) by {
        lemma_card_at_rank(c);
        assert(d[card_rank(c)] == c);
    }
    assert forall|c: Card| #[trigger] d.to_multiset().count(c) == 1 by {
        d.lemma_multiset_has_no_duplicates();
        d.to_multiset_ensures();
        lemma_card_at_rank(c);
        assert(d[card_rank(c)] == c);
    }
}

/// The cards not yet dealt.
pub struct Deck {
    cards: Vec<Card>,
}

impl View for Deck {
    type V = Seq<Card>;

    closed spec fn view(&self) -> Seq<Card> {
        self.cards@
    }
}

impl Deck {
    /// A deck of all 81 cards in random order.
    pub fn new() -> (r: Deck)
        ensures
            is_permutation(r@, full_deck()),
            r@.len() == DECK_SIZE,
    {
        let mut cards = build_deck();
        shuffle_cards(&mut cards);
        Deck { cards }
    }

    /// A deck holding the given cards, the last of them dealt first.
    pub fn from_cards(cards: Vec<Card>) -> (r: Deck)
        ensures
            r@ == cards@,
    {
        Deck { cards }
    }

    /// The cards that remain, the last of them dealt first.
    pub fn cards(&self) -> (r: &Vec<Card>)
        ensures
            r@ == self@,
    {
        &self.cards
    }

    /// The number of cards that remain.
    pub fn len(&self) -> (r: usize)
        ensures
            r == self@.len(),
    {
        self.cards.len()
    }

    /// Takes `amount` cards from the end of the deck, or all of them where
    /// fewer remain.
    pub fn deal(&mut self, amount: usize) -> (r: Vec<Card>)
        ensures
            ({
                let n = old(self)@.len();
                let k = if amount < n { amount as int } else { n as int };
                &&& r@ == old(self)@.subrange(n - k, n as int)
                &&& final(self)@ == old(self)@.subrange(0, n - k)
            }),
            amount >= old(self)@.len() ==> r@ == old(self)@ && final(self)@.len() == 0,
            amount < old(self)@.len() ==> r@.len() == amount && final(self)@.len()
                == old(self)@.len() - amount,
            final(self)@ + r@ == old(self)@,
    {
        let n = self.cards.len();
        let k = if amount < n { amount } else { n };
        let r = self.cards.split_off(n - k);
        assert(self.cards@ + r@ =~= old(self)@);
        assert(amount >= n ==> r@ =~= old(self)@);
        r
    }
}

} // verus!
