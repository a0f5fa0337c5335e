//! A card-game table, seeded randomness, and the deck import pipeline:
//! deck codes, links, text lists and card lookup, with their laws proved.
pub mod text;
pub mod json;
pub mod table;
pub mod snapshot;
pub mod rng;
pub mod naming;
pub mod deck;
pub mod riftbound;
pub mod mtg;
pub mod abysswalker;
pub mod transport;
pub mod art;
pub mod cards;
pub mod scryfall;
pub mod ingest_riftbound;
pub mod asset_gateway;
