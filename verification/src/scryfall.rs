//! Scryfall set ingest: the cards a set search answers, and the store
//! records made of them.
use vstd::prelude::*;

verus! {

/// The pause between two requests to Scryfall, in milliseconds.
pub const COURTESY_DELAY_MS: u64 = 100u64;

/// A card of a set search.
#[derive(Debug, Clone)]
pub struct ScryfallCard {
    pub name: String,
    pub mana_cost: Option<String>,
    pub type_line: Option<String>,
    pub oracle_text: Option<String>,
    pub image_uris: Option<ImageUris>,
    pub card_faces: Option<Vec<CardFace>>,
}

/// One face of a card with two.
#[derive(Debug, Clone)]
pub struct CardFace {
    pub mana_cost: Option<String>,
    pub type_line: Option<String>,
    pub oracle_text: Option<String>,
    pub image_uris: Option<ImageUris>,
}

/// The images of a card or a face.
#[derive(Debug, Clone)]
pub struct ImageUris {
    pub normal: String,
}

/// The published list of a set's stored cards.
#[derive(Debug, Clone)]
pub struct Manifest {
    pub set: String,
    pub cards: Vec<ManifestCard>,
}

/// A stored card record.
#[derive(Debug, Clone)]
pub struct ManifestCard {
    pub name: String,
    pub mana_cost: String,
    pub type_line: String,
    pub oracle_text: String,
    pub image: String,
}

/// A card's front face, when it has faces.
pub open spec fn front(card: ScryfallCard) -> Option<CardFace> {
    match card.card_faces {
        Some(faces) => if faces@.len() > 0 {
            Some(faces@[0])
        } else {
            None
        },
        None => None,
    }
}

/// The link to a card's art: its own normal image, else its front face's.
pub open spec fn art_link(card: ScryfallCard) -> Option<Seq<char>> {
    match card.image_uris {
        Some(uris) => Some(uris.normal@),
        None => match front(card) {
            Some(face) => match face.image_uris {
                Some(uris) => Some(uris.normal@),
                None => None,
            },
            None => None,
        },
    }
}

/// A text field of a card: its own, else its front face's, else empty.
pub open spec fn field_text(own: Option<String>, face: Option<Option<String>>) -> Seq<char> {
    match own {
        Some(s) => s@,
        None => match face {
            Some(Some(s)) => s@,
            _ => Seq::empty(),
        },
    }
}

fn front_of(card: &ScryfallCard) -> (r: Option<&CardFace>)
    ensures
        match front(*card) {
            Some(f) => r matches Some(x) && *x == f,
            None => r is None,
        },
{
    match &card.card_faces {
        Some(faces) => if faces.len() > 0 {
            Some(&faces[0])
        } else {
            None
        },
        None => None,
    }
}

/// The link to a card's art, if it has any.
pub fn image_url(card: &ScryfallCard) -> (r: Option<String>)
    ensures
        match art_link(*card) {
            Some(u) => r matches Some(s) && s@ == u,
            None => r is None,
        },
{
    match &card.image_uris {
        Some(uris) => Some(uris.normal.clone()),
        None => match front_of(card) {
            Some(face) => match &face.image_uris {
                Some(uris) => Some(uris.normal.clone()),
                None => None,
            },
            None => None,
        },
    }
}

fn text_or(own: &Option<String>, face: Option<&Option<String>>) -> (r: String)
    ensures
        r@ == field_text(*own, match face {
            Some(f) => Some(*f),
            None => None,
        }),
{
    match own {
        Some(s) => s.clone(),
        None => match face {
            Some(Some(s)) => s.clone(),
            _ => String::new(),
        },
    }
}

/// The record stored for a card whose art is stored as `image`: its name,
/// and its cost, type line and rules text, each its own or else its front
/// face's.
pub fn manifest_card(card: &ScryfallCard, image: String) -> (r: ManifestCard)
    ensures
        r.name@ == card.name@,
        r.mana_cost@ == field_text(card.mana_cost, match front(*card) {
            Some(f) => Some(f.mana_cost),
            None => None,
        }),
        r.type_line@ == field_text(card.type_line, match front(*card) {
            Some(f) => Some(f.type_line),
            None => None,
        }),
        r.oracle_text@ == field_text(card.oracle_text, match front(*card) {
            Some(f) => Some(f.oracle_text),
            None => None,
        }),
        r.image@ == image@,
{
    let face = front_of(card);
    let mana_cost = text_or(&card.mana_cost, match face {
        Some(f) => Some(&f.mana_cost),
        None => None,
    });
    let type_line = text_or(&card.type_line, match face {
        Some(f) => Some(&f.type_line),
        None => None,
    });
    let oracle_text = text_or(&card.oracle_text, match face {
        Some(f) => Some(&f.oracle_text),
        None => None,
    });
    ManifestCard { name: card.name.clone(), mana_cost, type_line, oracle_text, image }
}

} // verus!
