use std::collections::HashSet;

use setgame::{build_deck, Card, Deck, Property};

const ALL: [Property; 3] = [Property::First, Property::Second, Property::Third];

#[test]
fn build_deck_holds_every_card_once() {
    let deck = build_deck();
    assert_eq!(deck.len(), 81);
    let distinct: HashSet<Card> = deck.iter().copied().collect();
    assert_eq!(distinct.len(), 81);
    for shape in ALL {
        for shading in ALL {
            for color in ALL {
                for count in ALL {
                    let c = Card::new(shape, shading, color, count);
                    assert_eq!(deck.iter().filter(|d| **d == c).count(), 1);
                }
            }
        }
    }
}

#[test]
fn build_deck_order_has_count_varying_fastest() {
    let deck = build_deck();
    assert_eq!(
        deck[0],
        Card::new(Property::First, Property::First, Property::First, Property::First)
    );
    assert_eq!(
        deck[1],
        Card::new(Property::First, Property::First, Property::First, Property::Second)
    );
    assert_eq!(
        deck[3],
        Card::new(Property::First, Property::First, Property::Second, Property::First)
    );
    assert_eq!(
        deck[27],
        Card::new(Property::Second, Property::First, Property::First, Property::First)
    );
    assert_eq!(
        deck[80],
        Card::new(Property::Third, Property::Third, Property::Third, Property::Third)
    );
}

#[test]
fn new_deck_is_a_shuffled_full_deck() {
    let deck = Deck::new();
    assert_eq!(deck.len(), 81);
    let mut got = deck.cards().clone();
    let mut want = build_deck();
    let key = |c: &Card| format!("{:?}", c);
    got.sort_by_key(key);
    want.sort_by_key(key);
    assert_eq!(got, want);
    assert_ne!(deck.cards(), &build_deck());
}

#[test]
fn deal_fewer_than_remaining_takes_from_the_end() {
    let full = build_deck();
    let mut deck = Deck::from_cards(full.clone());
    let dealt = deck.deal(12);
    assert_eq!(dealt.len(), 12);
    assert_eq!(deck.len(), 69);
    assert_eq!(dealt[..], full[69..]);
    assert_eq!(deck.cards()[..], full[..69]);
}

#[test]
fn deal_exactly_remaining_empties_deck() {
    let full = build_deck();
    let mut deck = Deck::from_cards(full.clone());
    let dealt = deck.deal(81);
    assert_eq!(dealt, full);
    assert_eq!(deck.len(), 0);
}

#[test]
fn deal_more_than_remaining_is_clamped() {
    let full = build_deck();
    let mut deck = Deck::from_cards(full[..5].to_vec());
    let dealt = deck.deal(100);
    assert_eq!(dealt, full[..5].to_vec());
    assert_eq!(deck.len(), 0);
    let again = deck.deal(3);
    assert!(again.is_empty());
    assert_eq!(deck.len(), 0);
}

#[test]
fn deal_zero_leaves_deck_unchanged() {
    let full = build_deck();
    let mut deck = Deck::from_cards(full.clone());
    let dealt = deck.deal(0);
    assert!(dealt.is_empty());
    assert_eq!(deck.cards(), &full);
}
