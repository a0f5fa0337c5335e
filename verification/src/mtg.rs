//! Magic: The Gathering decks: sections, text lists, card lookup and
//! resolution.
pub mod catalog;
pub mod ingest;
pub mod scryfall_named;
pub mod resolve;
pub mod resolved;
pub mod text_list;

use vstd::prelude::*;
use crate::deck::Game;
use crate::mtg::catalog::{mtg_card_view, MtgCard};
use crate::mtg::resolved::{pushed, push_card, DeckView, ResolvedCard, ResolvedDeck};
use crate::naming::{normalize_name, normalized};
use crate::table::CardFace;

verus! {

/// The Magic: The Gathering game, as the deck importer knows it.
#[derive(Debug, Clone, Copy, PartialEq, Eq, Default)]
pub struct Mtg;

/// The zones of a Magic deck list; `Ignored` is a block the list carries
/// but the deck does not.
#[derive(Debug, Clone, Copy, PartialEq, Eq, Structural)]
pub enum Section {
    Commander,
    Main,
    Sideboard,
    Ignored,
}

pub type ParsedEntry = crate::deck::ParsedEntry<Mtg>;
pub type ParsedDeck = crate::deck::ParsedDeck<Mtg>;

/// The deck after `count` copies of a card arrive in `section`: the first
/// commander takes the commander seat (one copy), a later one joins the
/// main deck; sideboard cards join the sideboard; ignored cards go nowhere;
/// anything else joins the main deck.
pub open spec fn placed(d: DeckView, section: Option<Section>, card: (Seq<char>, Option<Seq<char>>), count: u32) -> DeckView {
    match section {
        Some(Section::Commander) => if d.0 is None {
            (Some(card), d.1, d.2)
        } else {
            (d.0, pushed(d.1, card, count), d.2)
        },
        Some(Section::Sideboard) => (d.0, d.1, pushed(d.2, card, count)),
        Some(Section::Ignored) => d,
        _ => (d.0, pushed(d.1, card, count), d.2),
    }
}

impl Game for Mtg {
    type Section = Section;
    type Identifier = String;
    type Card = MtgCard;
    type Deck = ResolvedDeck;

    fn describe(name: &String) -> (r: String)
        ensures
            r@ == name@,
    {
        name.clone()
    }

    open spec fn keyed() -> bool {
        true
    }

    open spec fn key_of(name: String) -> Seq<char> {
        normalized(name@)
    }

    fn cache_key(name: &String) -> (r: String)
        ensures
            r@ == normalized(name@),
    {
        normalize_name(name.as_str())
    }

    open spec fn places(before: ResolvedDeck, section: Option<Section>, card: MtgCard, count: u32, after: ResolvedDeck) -> bool {
        after@ == placed(before@, section, mtg_card_view(card), count)
    }

    fn place(deck: &mut ResolvedDeck, section: Option<Section>, card: MtgCard, count: u32)
        ensures
            final(deck)@ == placed(old(deck)@, section, mtg_card_view(card), count),
    {
        let card = ResolvedCard { name: card.name, image_url: card.image_url };
        match section {
            Some(Section::Commander) => {
                if deck.commander.is_none() {
                    deck.commander = Some(card);
                } else {
                    push_card(&mut deck.main_deck, card, count);
                }
            },
            Some(Section::Sideboard) => push_card(&mut deck.sideboard, card, count),
            Some(Section::Ignored) => {},
            _ => push_card(&mut deck.main_deck, card, count),
        }
    }
}

/// The faces a Magic deck is dealt from: the commander, and the library.
#[derive(Debug, Clone, PartialEq, Default)]
pub struct DeckFaces {
    pub commander: Option<CardFace>,
    pub library: Vec<CardFace>,
}

} // verus!
