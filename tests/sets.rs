use std::collections::HashSet;

use setgame::{build_deck, find_sets, Card, Game, Property};

use Property::{First, Second, Third};

fn balanced(a: Property, b: Property, c: Property) -> bool {
    (a == b && b == c) || (a != b && b != c && a != c)
}

fn rule(x: &Card, y: &Card, z: &Card) -> bool {
    balanced(x.shape, y.shape, z.shape)
        && balanced(x.shading, y.shading, z.shading)
        && balanced(x.color, y.color, z.color)
        && balanced(x.count, y.count, z.count)
}

fn brute_force(board: &[Card]) -> Vec<(Card, Card, Card)> {
    let mut out = Vec::new();
    for i in 0..board.len() {
        for j in i + 1..board.len() {
            for k in j + 1..board.len() {
                if rule(&board[i], &board[j], &board[k]) {
                    out.push((board[i], board[j], board[k]));
                }
            }
        }
    }
    out
}

#[test]
fn completion_agrees_with_the_rule_on_the_whole_deck() {
    let deck = build_deck();
    for x in &deck {
        for y in &deck {
            for z in &deck {
                if x != y && y != z && x != z {
                    assert_eq!(x.third(y) == *z, rule(x, y, z));
                }
            }
        }
    }
}

#[test]
fn four_card_board_with_one_set() {
    let a = Card::new(First, First, First, First);
    let b = Card::new(Second, Second, Second, Second);
    let c = Card::new(Third, Third, Third, Third);
    let d = Card::new(First, Second, First, First);
    let board = vec![a, b, d, c];
    let sets = find_sets(&board);
    assert_eq!(sets, vec![(a, b, c)]);
}

#[test]
fn small_boards_have_no_sets() {
    assert!(find_sets(&Vec::new()).is_empty());
    let a = Card::new(First, First, First, First);
    let b = Card::new(Second, Second, Second, Second);
    assert!(find_sets(&vec![a]).is_empty());
    assert!(find_sets(&vec![a, b]).is_empty());
}

#[test]
fn three_cards_that_are_a_set() {
    let a = Card::new(First, Second, Third, First);
    let b = Card::new(Second, Second, Third, Second);
    let c = Card::new(Third, Second, Third, Third);
    assert_eq!(find_sets(&vec![c, a, b]), vec![(c, a, b)]);
}

#[test]
fn three_cards_that_are_not_a_set() {
    let a = Card::new(First, Second, Third, First);
    let b = Card::new(Second, Second, Third, Second);
    let c = Card::new(Third, Second, Third, First);
    assert!(find_sets(&vec![a, b, c]).is_empty());
}

#[test]
fn find_sets_twice_gives_the_same_sequence() {
    let board: Vec<Card> = build_deck().into_iter().step_by(7).collect();
    let first = find_sets(&board);
    let second = find_sets(&board);
    assert_eq!(first, second);
}

#[test]
fn twelve_card_board_matches_brute_force() {
    let board: Vec<Card> = build_deck().into_iter().take(12).collect();
    assert_eq!(board.len(), 12);
    let expected = brute_force(&board);
    let sets = find_sets(&board);
    assert!(!expected.is_empty());
    assert_eq!(sets.len(), expected.len());
    assert_eq!(sets, expected);
    let distinct: HashSet<(Card, Card, Card)> = sets.iter().copied().collect();
    assert_eq!(distinct.len(), sets.len());
    for (x, y, z) in &sets {
        assert!(x != y && y != z && x != z);
        assert!(board.contains(x) && board.contains(y) && board.contains(z));
    }
}

#[test]
fn sets_come_in_lexicographic_order_of_positions() {
    let a = Card::new(First, First, First, First);
    let b = Card::new(Second, First, First, First);
    let c = Card::new(Third, First, First, First);
    let d = Card::new(First, Second, First, First);
    let e = Card::new(First, Third, First, First);
    let board = vec![a, b, c, d, e];
    assert_eq!(find_sets(&board), vec![(a, b, c), (a, d, e)]);
}

#[test]
fn whole_deck_holds_1080_sets() {
    let deck = build_deck();
    let sets = find_sets(&deck);
    assert_eq!(sets.len(), 1080);
    assert_eq!(sets, brute_force(&deck));
}

#[test]
fn new_game_deals_twelve_cards() {
    let game = Game::new();
    assert_eq!(game.board().len(), 12);
    assert_eq!(game.deck().len(), 69);
    let mut all: HashSet<Card> = game.board().iter().copied().collect();
    all.extend(game.deck().cards().iter().copied());
    assert_eq!(all.len(), 81);
}

#[test]
fn game_sets_are_the_sets_of_its_board() {
    let game = Game::new();
    let sets = game.sets();
    assert_eq!(sets, brute_force(game.board()));
    assert_eq!(sets, game.sets());
    for (x, y, z) in &sets {
        assert_eq!(x.third(y), *z);
    }
}

#[test]
fn oversized_board_takes_the_whole_deck() {
    let game = Game::with_board_size(100);
    assert_eq!(game.board().len(), 81);
    assert_eq!(game.deck().len(), 0);
    assert_eq!(game.sets().len(), 1080);
}
