//! A model of the card game "Set": an 81-card deck over four three-valued
//! attributes, a dealt board, and the enumeration of every valid set on it.

pub mod card;
pub mod deck;
pub mod finder;
pub mod game;
pub mod property;

pub use card::Card;
pub use deck::{build_deck, Deck};
pub use finder::find_sets;
pub use game::Game;
pub use property::Property;
