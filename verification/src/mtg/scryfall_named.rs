//! Scryfall's named-card answers: the card, its art, and the catalog
//! record it gives.
use vstd::prelude::*;
use crate::mtg::catalog::{mtg_card_view, MtgCard};

verus! {

pub const API_BASE: &'static str = "https://api.scryfall.com";
/// The pause between two Scryfall requests, in milliseconds.
pub const THROTTLE_MS: u64 = 100u64;

/// A card as Scryfall names it: its name, its images, and the faces of a
/// card with two.
#[derive(Debug, Clone)]
pub struct NamedCard {
    pub name: String,
    pub image_uris: Option<ImageUris>,
    pub card_faces: Option<Vec<NamedFace>>,
}

/// One face of a card with two.
#[derive(Debug, Clone)]
pub struct NamedFace {
    pub image_uris: Option<ImageUris>,
}

/// The images of a card or a face; the normal one is what a deck shows.
#[derive(Debug, Clone)]
pub struct ImageUris {
    pub normal: String,
}

/// The art of a card: its own normal image, else its front face's.
pub open spec fn art_of(card: NamedCard) -> Option<Seq<char>> {
    match card.image_uris {
        Some(uris) => Some(uris.normal@),
        None => match card.card_faces {
            Some(faces) => if faces@.len() > 0 {
                match faces@[0].image_uris {
                    Some(uris) => Some(uris.normal@),
                    None => None,
                }
            } else {
                None
            },
            None => None,
        },
    }
}

/// The link to a card's art: its own normal image, else its front face's.
pub fn image_url(card: &NamedCard) -> (r: Option<String>)
    ensures
        match art_of(*card) {
            Some(u) => r matches Some(s) && s@ == u,
            None => r is None,
        },
{
    match &card.image_uris {
        Some(uris) => Some(uris.normal.clone()),
        None => match &card.card_faces {
            Some(faces) => if faces.len() > 0 {
                match &faces[0].image_uris {
                    Some(uris) => Some(uris.normal.clone()),
                    None => None,
                }
            } else {
                None
            },
            None => None,
        },
    }
}

/// The catalog record of a named card: its name and its art.
pub fn card_of(card: &NamedCard) -> (r: MtgCard)
    ensures
        mtg_card_view(r) == (card.name@, art_of(*card)),
{
    MtgCard { name: card.name.clone(), image_url: image_url(card) }
}

} // verus!
