//! The Magic card store records, and the catalog records they give.
use vstd::prelude::*;
use crate::mtg::catalog::{mtg_card_view, MtgCard, StaticCatalog};
use crate::text::chars_of;

verus! {

/// The store ref the manifest is published under.
pub const REF_NAME: &'static str = "mtg";
/// The journal of fetched card images.
pub const JOURNAL_FILE: &'static str = "mtg-images";
/// The pause between two card fetches of one deck, in milliseconds.
pub const DECK_THROTTLE_MS: u64 = 100u64;

/// The published list of every stored card.
#[derive(Debug, Clone)]
pub struct Manifest {
    pub set: String,
    pub cards: Vec<ManifestCard>,
}

/// A stored card record.
#[derive(Debug, Clone)]
pub struct ManifestCard {
    pub name: String,
    pub mana_cost: String,
    pub type_line: String,
    pub oracle_text: String,
    pub image: String,
    pub image_url: String,
}

/// The catalog record of a stored card: its name, and its art link when
/// it has one.
pub fn catalog_card(card: &ManifestCard) -> (r: MtgCard)
    ensures
        mtg_card_view(r) == (card.name@, if card.image_url@.len() == 0 {
            None::<Seq<char>>
        } else {
            Some(card.image_url@)
        }),
{
    let image_url = if chars_of(card.image_url.as_str()).len() == 0 {
        None
    } else {
        Some(card.image_url.clone())
    };
    MtgCard { name: card.name.clone(), image_url }
}

/// The catalog record a stored card gives, as plain values.
pub open spec fn stored_view(card: ManifestCard) -> (Seq<char>, Option<Seq<char>>) {
    (card.name@, if card.image_url@.len() == 0 {
        None::<Seq<char>>
    } else {
        Some(card.image_url@)
    })
}

/// The catalog of a published manifest: one record per stored card, in
/// manifest order.
pub fn catalog_of(manifest: &Manifest) -> (r: StaticCatalog)
    ensures
        r.cards().len() == manifest.cards@.len(),
        forall|i: int| 0 <= i < r.cards().len() ==> mtg_card_view(#[trigger] r.cards()[i]) == stored_view(manifest.cards@[i]),
{
    let mut cards: Vec<MtgCard> = Vec::new();
    let mut i: usize = 0;
    while i < manifest.cards.len()
        invariant
            i <= manifest.cards@.len(),
            cards@.len() == i,
            forall|j: int| 0 <= j < i ==> mtg_card_view(#[trigger] cards@[j]) == stored_view(manifest.cards@[j]),
        decreases manifest.cards@.len() - i,
    {
        cards.push(catalog_card(&manifest.cards[i]));
        i = i + 1;
    }
    StaticCatalog::new(cards)
}

} // verus!
