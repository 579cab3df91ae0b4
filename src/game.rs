use vstd::prelude::*;

use crate::card::Card;
use crate::deck::{full_deck, is_permutation, lemma_full_deck_complete, Deck, DECK_SIZE};
use crate::finder::{find_sets, sets_of};

verus! {

/// The number of cards dealt to the board in a standard game.
pub const DEFAULT_BOARD_SIZE: usize = 12;

/// One game: a shuffled deck and the board dealt from it.
pub struct Game {
    deck: Deck,
    board: Vec<Card>,
}

impl Game {
    /// The cards on the board, in the order they were dealt.
    pub closed spec fn board_view(&self) -> Seq<Card> {
        self.board@
    }

    /// The cards left in the deck.
    pub closed spec fn deck_view(&self) -> Seq<Card> {
        self.deck@
    }

    /// Board and deck together hold every card exactly once.
    pub open spec fn wf(&self) -> bool {
        is_permutation(self.deck_view() + self.board_view(), full_deck())
    }

    /// A game with a standard board of twelve cards.
    pub fn new() -> (r: Game)
        ensures
            r.wf(),
            r.board_view().no_duplicates(),
            r.board_view().len() == DEFAULT_BOARD_SIZE,
            r.deck_view().len() == DECK_SIZE - DEFAULT_BOARD_SIZE,
    {
        Game::with_board_size(DEFAULT_BOARD_SIZE)
    }

    /// A game whose board holds `board_size` cards, or the whole deck where
    /// `board_size` exceeds it.
    pub fn with_board_size(board_size: usize) -> (r: Game)
        ensures
            r.wf(),
            r.board_view().no_duplicates(),
            r.board_view().len() == if board_size < DECK_SIZE {
                board_size as int
            } else {
                DECK_SIZE as int
            },
            r.deck_view().len() + r.board_view().len() == DECK_SIZE,
    {
        let mut deck = Deck::new();
        let board = deck.deal(board_size);
        let r = Game { deck, board };
        proof {
            lemma_wf_cards_distinct(r);
        }
        r
    }

    /// The cards on the board.
    pub fn board(&self) -> (r: &Vec<Card>)
        ensures
            r@ == self.board_view(),
    {
        &self.board
    }

    /// The cards left in the deck.
    pub fn deck(&self) -> (r: &Deck)
        ensures
            r@ == self.deck_view(),
    {
        &self.deck
    }

    /// Every set on the board, in the lexicographic order of positions.
    pub fn sets(&self) -> (r: Vec<(Card, Card, Card)>)
        ensures
            r@ == sets_of(self.board_view()),
    {
        find_sets(&self.board)
    }
}

/// In a well-formed game no card appears twice, on the board or in the deck.
pub proof fn lemma_wf_cards_distinct(g: Game)
    requires
        g.wf(),
    ensures
        g.board_view().no_duplicates(),
        g.deck_view().no_duplicates(),
{
    let all = g.deck_view() + g.board_view();
    let dl = g.deck_view().len() as int;
    lemma_full_deck_complete();
    assert forall|x: Card| all.to_multiset().contains(x) implies all.to_multiset().count(x)
        == 1 by {
        assert(full_deck().to_multiset().count(x) == 1);
    }
    all.lemma_multiset_has_no_duplicates_conv();
    assert forall|p: int, q: int|
        0 <= p < g.board_view().len() && 0 <= q < g.board_view().len() && p != q implies g.board_view()[p]
        != g.board_view()[q] by {
        assert(all[dl + p] == g.board_view()[p]);
        assert(all[dl + q] == g.board_view()[q]);
    }
    assert forall|p: int, q: int|
        0 <= p < dl && 0 <= q < dl && p != q implies g.deck_view()[p] != g.deck_view()[q] by {
        assert(all[p] == g.deck_view()[p]);
        assert(all[q] == g.deck_view()[q]);
    }
}

} // verus!
