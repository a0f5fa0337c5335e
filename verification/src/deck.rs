//! The game-neutral deck-list machinery: what a game tells the importer
//! about itself, a parsed list, text parsing, card lookup and resolution.
pub mod catalog;
pub mod history;
pub mod resolve;
pub mod text_list;

use vstd::prelude::*;

verus! {

/// What a game supplies to the importer: its zones, how it names a card, its
/// cards, and how a card lands in a deck.
pub trait Game: Copy + Eq + Default + core::fmt::Debug + Sized + 'static {
    type Section: Copy + Eq + core::fmt::Debug;
    type Identifier: Clone + Eq + core::fmt::Debug;
    type Card: Clone + Eq + core::fmt::Debug;
    type Deck: Default + Clone + Eq + core::fmt::Debug;

    /// The identifier as a reader would write it.
    fn describe(identifier: &Self::Identifier) -> String;

    /// Whether the game states its cache keys as `key_of`. A game that
    /// states nothing keeps this default.
    open spec fn keyed() -> bool {
        false
    }

    /// The key under which a lookup of this identifier is remembered, for
    /// a game that states it.
    open spec fn key_of(identifier: Self::Identifier) -> Seq<char> {
        Seq::empty()
    }

    /// The key under which a lookup of this identifier is remembered.
    fn cache_key(identifier: &Self::Identifier) -> (r: String)
        ensures
            Self::keyed() ==> r@ == Self::key_of(*identifier),
    ;

    /// What a game promises of placing: that `count` copies of `card`,
    /// listed under `section`, may turn the deck `before` into `after`. A
    /// game that promises nothing keeps this default.
    open spec fn places(
        before: Self::Deck,
        section: Option<Self::Section>,
        card: Self::Card,
        count: u32,
        after: Self::Deck,
    ) -> bool {
        true
    }

    /// Puts `count` copies of `card` into the deck, in `section` or where
    /// the card itself belongs.
    fn place(deck: &mut Self::Deck, section: Option<Self::Section>, card: Self::Card, count: u32)
        ensures
            Self::places(*old(deck), section, card, count, *final(deck)),
    ;
}

/// One line of a deck list: what names the card, how many, and the section
/// it was listed under, if any.
#[derive(Debug, Clone, PartialEq, Eq)]
pub struct ParsedEntry<G: Game> {
    pub identifier: G::Identifier,
    pub count: u32,
    pub section: Option<G::Section>,
}

/// A deck list before any card is looked up.
#[derive(Debug, Clone, PartialEq, Eq)]
pub struct ParsedDeck<G: Game> {
    pub entries: Vec<ParsedEntry<G>>,
}

impl<G: Game> ParsedDeck<G> {
    /// A list with no entries.
    pub fn new() -> (d: Self)
        ensures
            d.entries@.len() == 0,
    {
        ParsedDeck { entries: Vec::new() }
    }
}

impl<G: Game> Default for ParsedDeck<G> {
    fn default() -> (d: Self)
        ensures
            d.entries@.len() == 0,
    {
        ParsedDeck::new()
    }
}

} // verus!
