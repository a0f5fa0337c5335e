//! Resolving a Magic list against a card lookup.
use vstd::prelude::*;
use crate::deck::catalog::{CardLookup, LookupError};
use crate::deck::resolve::resolves;
use crate::mtg::{Mtg, ParsedDeck};

verus! {

pub type Resolution = crate::deck::resolve::Resolution<Mtg>;

/// Looks every entry up and seats what is found, as the game-neutral
/// resolver does.
pub fn resolve<L: CardLookup<Mtg>>(parsed: &ParsedDeck, cards: &mut L) -> (r: Result<Resolution, LookupError>)
    ensures
        r matches Ok(res) && resolves(parsed.entries@, *old(cards), *final(cards), res),
{
    crate::deck::resolve::resolve(parsed, cards)
}

/// Whether the resolution seats nothing: no commander and no card in
/// either zone.
pub fn is_empty(resolution: &Resolution) -> (r: bool)
    ensures
        r == (resolution.deck.commander is None && resolution.deck.main_deck@.len() == 0
            && resolution.deck.sideboard@.len() == 0),
{
    let deck = &resolution.deck;
    deck.commander.is_none() && deck.main_deck.len() == 0 && deck.sideboard.len() == 0
}

} // verus!
