//! Abyss-walker decks: a plain list of card names.
use vstd::prelude::*;

verus! {

/// The game's name in the store.
pub const GAME: &'static str = "abyss-walker";

/// A card, by name.
#[derive(Debug, Clone, PartialEq, Eq, PartialOrd, Ord, Hash)]
pub struct CardName(pub String);

/// An abyss-walker deck: its cards, one name per copy.
#[derive(Debug, Clone, PartialEq, Eq, Default)]
pub struct AbyssWalkerDeck {
    pub cards: Vec<CardName>,
}

} // verus!
