//! Saved decks: the collection a game's saved decks are kept in.
use vstd::prelude::*;
use crate::text::{chars_of, extend, string_of};

verus! {

pub const DECK_PREFIX: &'static str = "decks";

/// The name of the collection a game's saved decks are kept in: `decks/`
/// and the game.
pub fn collection_name(game: &str) -> (r: String)
    ensures
        r@ == DECK_PREFIX@ + "/"@ + game@,
{
    let mut out = chars_of(DECK_PREFIX);
    extend(&mut out, chars_of("/").as_slice());
    extend(&mut out, chars_of(game).as_slice());
    string_of(out.as_slice())
}

} // verus!
