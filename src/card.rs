use vstd::prelude::*;

use crate::property::{balanced, completion, Property};

verus! {

/// A card: one value in each of the four dimensions shape, shading, color
/// and count. A card has no identity beyond these four values.
#[derive(Clone, Copy, Debug, PartialEq, Eq, Hash, Structural)]
pub struct Card {
    pub shape: Property,
    pub shading: Property,
    pub color: Property,
    pub count: Property,
}

/// The card that completes `x` and `y` to a set: completion in each dimension.
pub open spec fn card_completion(x: Card, y: Card) -> Card {
    Card {
        shape: completion(x.shape, y.shape),
        shading: completion(x.shading, y.shading),
        color: completion(x.color, y.color),
        count: completion(x.count, y.count),
    }
}

/// Three cards form a set when, in every dimension, their values are all
/// equal or pairwise distinct.
pub open spec fn is_set(x: Card, y: Card, z: Card) -> bool {
    &&& balanced(x.shape, y.shape, z.shape)
    &&& balanced(x.shading, y.shading, z.shading)
    &&& balanced(x.color, y.color, z.color)
    &&& balanced(x.count, y.count, z.count)
}

/// The position of a card in the ordered deck: its four values read as the
/// digits of a base-3 number, shape first.
pub open spec fn card_rank(c: Card) -> int {
    27 * c.shape.index() + 9 * c.shading.index() + 3 * c.color.index() + c.count.index()
}

/// The card at position `i` of the ordered deck (for `0 <= i < 81`).
pub open spec fn card_at(i: int) -> Card {
    Card {
        shape: Property::at(i / 27),
        shading: Property::at((i % 27) / 9),
        color: Property::at((i % 9) / 3),
        count: Property::at(i % 3),
    }
}

impl Card {
    /// A card with the given values.
    pub fn new(shape: Property, shading: Property, color: Property, count: Property) -> (r: Card)
        ensures
            r == (Card { shape, shading, color, count }),
    {
        Card { shape, shading, color, count }
    }

    /// The card that forms a set with `self` and `other`.
    pub fn third(&self, other: &Card) -> (r: Card)
        ensures
            r == card_completion(*self, *other),
    {
        Card {
            shape: self.shape.third(&other.shape),
            shading: self.shading.third(&other.shading),
            color: self.color.third(&other.color),
            count: self.count.third(&other.count),
        }
    }
}

/// A third card completes the first two exactly when the three form a set.
pub proof fn lemma_completion_iff_set(x: Card, y: Card, z: Card)
    ensures
        (card_completion(x, y) == z) <==> is_set(x, y, z),
{
    crate::property::lemma_completion_iff_balanced(x.shape, y.shape, z.shape);
    crate::property::lemma_completion_iff_balanced(x.shading, y.shading, z.shading);
    crate::property::lemma_completion_iff_balanced(x.color, y.color, z.color);
    crate::property::lemma_completion_iff_balanced(x.count, y.count, z.count);
}

/// Ranks lie in `0..81`, and the card at a card's rank is that card.
pub proof fn lemma_card_at_rank(c: Card)
    ensures
        0 <= card_rank(c) < 81,
        card_at(card_rank(c)) == c,
{
}

/// Each position of the ordered deck is the rank of the card standing there.
pub proof fn lemma_rank_card_at(i: int)
    requires
        0 <= i < 81,
    ensures
        card_rank(card_at(i)) == i,
{
}

} // verus!
