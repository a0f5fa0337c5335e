//! Riftbound decks: card codes, deck codes, links, text lists and lookup.
pub mod card_code;
pub mod catalog;
pub mod code_list;
pub mod deck_code;
pub mod gateway;
pub mod ingest;
pub mod link;
pub mod query;
pub mod resolve;
pub mod resolved;
pub mod riftcodex;
pub mod round_trip;
pub mod search;
pub mod tcg_arena;
pub mod text_list;

use vstd::prelude::*;
use crate::deck::Game;
use crate::naming::{normalize_name, normalized};
use crate::riftbound::card_code::{code_text, id_fragment_text, CardCode};
use crate::riftbound::catalog::{resolved_view, CardKind, CatalogCard};
use crate::riftbound::code_list::{code_list_read, CodeListError};
use crate::riftbound::deck_code::{decode_text, CodeEntry, DeckCodeError, DecodedDeck};
use crate::riftbound::resolved::{pushed, push_card, CardView, DeckView, ResolvedDeck};
use crate::riftbound::text_list::TextError;
use crate::text::{chars_of, extend, lower_all, lower_seq, string_of, trim, trim_of, words, words_of};
use crate::deck::text_list::{entries_read, text_read};
use crate::riftbound::text_list::list_body;
use crate::riftbound::link::{classify, code_in_url, site_of_url, url_code, Site};
use crate::riftbound::code_list::{code_list_like, from_tts, looks_like_code_list, looks_like_tts_list, tts_list, tts_text};
use crate::riftbound::tcg_arena::{json_entries, json_import, url_import};

verus! {

/// The Riftbound game, as the deck importer knows it.
#[derive(Debug, Clone, Copy, PartialEq, Eq, Default)]
pub struct Riftbound;

/// The zones of a Riftbound deck list.
#[derive(Debug, Clone, Copy, PartialEq, Eq, Structural)]
pub enum Section {
    Legend,
    Champion,
    Main,
    Runes,
    Battlefields,
    Sideboard,
}

/// How a list names a card: by name, by printed code, or by catalog id.
#[derive(Debug, Clone, PartialEq, Eq)]
pub enum Identifier {
    Name(String),
    Code(CardCode),
    Id(String),
}

/// An identifier as plain values.
pub enum IdentifierView {
    Name(Seq<char>),
    Code(CardCode),
    Id(Seq<char>),
}

impl View for Identifier {
    type V = IdentifierView;

    open spec fn view(&self) -> IdentifierView {
        match self {
            Identifier::Name(n) => IdentifierView::Name(n@),
            Identifier::Code(c) => IdentifierView::Code(*c),
            Identifier::Id(i) => IdentifierView::Id(i@),
        }
    }
}

/// A parsed entry as plain values.
pub open spec fn entry_view(e: ParsedEntry) -> (IdentifierView, u32, Option<Section>) {
    (e.identifier@, e.count, e.section)
}

pub open spec fn entries_view(es: Seq<ParsedEntry>) -> Seq<(IdentifierView, u32, Option<Section>)> {
    es.map_values(|e: ParsedEntry| entry_view(e))
}

pub type ParsedEntry = crate::deck::ParsedEntry<Riftbound>;
pub type ParsedDeck = crate::deck::ParsedDeck<Riftbound>;

/// The identifier as a reader would write it.
pub open spec fn described(identifier: Identifier) -> Seq<char> {
    match identifier {
        Identifier::Name(name) => name@,
        Identifier::Code(code) => code_text(code),
        Identifier::Id(id) => id@,
    }
}

/// The cache key of an identifier: names by their normalized form, codes
/// and ids by their lower-case id fragment.
pub open spec fn cache_key_of(identifier: Identifier) -> Seq<char> {
    match identifier {
        Identifier::Name(name) => "name:"@ + normalized(name@),
        Identifier::Code(code) => "id:"@ + id_fragment_text(code),
        Identifier::Id(id) => "id:"@ + lower_seq(id@),
    }
}

/// The section a card lands in: the one it was listed under, else the one
/// its kind implies for legends, runes and battlefields.
pub open spec fn landing(section: Option<Section>, kind: CardKind) -> Option<Section> {
    match section {
        Some(s) => Some(s),
        None => match kind {
            CardKind::Legend => Some(Section::Legend),
            CardKind::Rune => Some(Section::Runes),
            CardKind::Battlefield => Some(Section::Battlefields),
            _ => None,
        },
    }
}

/// The deck after `count` copies of `card` land in `section`. The first
/// legend (and chosen champion) takes its slot and any further copies go
/// to the main deck.
pub open spec fn placed(d: DeckView, section: Option<Section>, card: CardView, count: u32) -> DeckView {
    match section {
        Some(Section::Legend) => if d.0 is None {
            (Some(card), d.1, if count > 1 { pushed(d.2, card, (count - 1) as u32) } else { d.2 }, d.3, d.4, d.5)
        } else {
            (d.0, d.1, pushed(d.2, card, count), d.3, d.4, d.5)
        },
        Some(Section::Champion) => if d.1 is None {
            (d.0, Some(card), if count > 1 { pushed(d.2, card, (count - 1) as u32) } else { d.2 }, d.3, d.4, d.5)
        } else {
            (d.0, d.1, pushed(d.2, card, count), d.3, d.4, d.5)
        },
        Some(Section::Runes) => (d.0, d.1, d.2, pushed(d.3, card, count), d.4, d.5),
        Some(Section::Battlefields) => (d.0, d.1, d.2, d.3, pushed(d.4, card, count), d.5),
        Some(Section::Sideboard) => (d.0, d.1, d.2, d.3, d.4, pushed(d.5, card, count)),
        _ => (d.0, d.1, pushed(d.2, card, count), d.3, d.4, d.5),
    }
}

/// A card listed under no header lands where a header naming its kind
/// would put it: a legend among the legends, a rune among the runes, a
/// battlefield among the battlefields; a kind no header names lands in no
/// section of its own.
pub proof fn lemma_unlisted_cards_land_by_kind(kind: CardKind)
    ensures
        landing(None, kind) == crate::riftbound::text_list::header_section(lower_seq(crate::riftbound::catalog::kind_name(kind))),
{
    reveal_strlit("Legend");
    assert("Legend"@.len() == 6 && "Legend"@[0] == 'L' && "Legend"@[1] == 'e' && "Legend"@[2] == 'g' && "Legend"@[3] == 'e' && "Legend"@[4] == 'n' && "Legend"@[5] == 'd');
    reveal_strlit("Unit");
    assert("Unit"@.len() == 4 && "Unit"@[0] == 'U' && "Unit"@[1] == 'n' && "Unit"@[2] == 'i' && "Unit"@[3] == 't');
    reveal_strlit("Spell");
    assert("Spell"@.len() == 5 && "Spell"@[0] == 'S' && "Spell"@[1] == 'p' && "Spell"@[2] == 'e' && "Spell"@[3] == 'l' && "Spell"@[4] == 'l');
    reveal_strlit("Gear");
    assert("Gear"@.len() == 4 && "Gear"@[0] == 'G' && "Gear"@[1] == 'e' && "Gear"@[2] == 'a' && "Gear"@[3] == 'r');
    reveal_strlit("Rune");
    assert("Rune"@.len() == 4 && "Rune"@[0] == 'R' && "Rune"@[1] == 'u' && "Rune"@[2] == 'n' && "Rune"@[3] == 'e');
    reveal_strlit("Battlefield");
    assert("Battlefield"@.len() == 11 && "Battlefield"@[0] == 'B' && "Battlefield"@[1] == 'a' && "Battlefield"@[2] == 't' && "Battlefield"@[3] == 't' && "Battlefield"@[4] == 'l' && "Battlefield"@[5] == 'e' && "Battlefield"@[6] == 'f' && "Battlefield"@[7] == 'i' && "Battlefield"@[8] == 'e' && "Battlefield"@[9] == 'l' && "Battlefield"@[10] == 'd');
    reveal_strlit("Other");
    assert("Other"@.len() == 5 && "Other"@[0] == 'O' && "Other"@[1] == 't' && "Other"@[2] == 'h' && "Other"@[3] == 'e' && "Other"@[4] == 'r');
    reveal_strlit("legend");
    assert("legend"@.len() == 6 && "legend"@[0] == 'l' && "legend"@[1] == 'e' && "legend"@[2] == 'g' && "legend"@[3] == 'e' && "legend"@[4] == 'n' && "legend"@[5] == 'd');
    reveal_strlit("legends");
    assert("legends"@.len() == 7 && "legends"@[0] == 'l' && "legends"@[1] == 'e' && "legends"@[2] == 'g' && "legends"@[3] == 'e' && "legends"@[4] == 'n' && "legends"@[5] == 'd' && "legends"@[6] == 's');
    reveal_strlit("champion");
    assert("champion"@.len() == 8 && "champion"@[0] == 'c' && "champion"@[1] == 'h' && "champion"@[2] == 'a' && "champion"@[3] == 'm' && "champion"@[4] == 'p' && "champion"@[5] == 'i' && "champion"@[6] == 'o' && "champion"@[7] == 'n');
    reveal_strlit("chosen champion");
    assert("chosen champion"@.len() == 15 && "chosen champion"@[0] == 'c' && "chosen champion"@[1] == 'h' && "chosen champion"@[2] == 'o' && "chosen champion"@[3] == 's' && "chosen champion"@[4] == 'e' && "chosen champion"@[5] == 'n' && "chosen champion"@[6] == ' ' && "chosen champion"@[7] == 'c' && "chosen champion"@[8] == 'h' && "chosen champion"@[9] == 'a' && "chosen champion"@[10] == 'm' && "chosen champion"@[11] == 'p' && "chosen champion"@[12] == 'i' && "chosen champion"@[13] == 'o' && "chosen champion"@[14] == 'n');
    reveal_strlit("champions");
    assert("champions"@.len() == 9 && "champions"@[0] == 'c' && "champions"@[1] == 'h' && "champions"@[2] == 'a' && "champions"@[3] == 'm' && "champions"@[4] == 'p' && "champions"@[5] == 'i' && "champions"@[6] == 'o' && "champions"@[7] == 'n' && "champions"@[8] == 's');
    reveal_strlit("deck");
    assert("deck"@.len() == 4 && "deck"@[0] == 'd' && "deck"@[1] == 'e' && "deck"@[2] == 'c' && "deck"@[3] == 'k');
    reveal_strlit("main");
    assert("main"@.len() == 4 && "main"@[0] == 'm' && "main"@[1] == 'a' && "main"@[2] == 'i' && "main"@[3] == 'n');
    reveal_strlit("main deck");
    assert("main deck"@.len() == 9 && "main deck"@[0] == 'm' && "main deck"@[1] == 'a' && "main deck"@[2] == 'i' && "main deck"@[3] == 'n' && "main deck"@[4] == ' ' && "main deck"@[5] == 'd' && "main deck"@[6] == 'e' && "main deck"@[7] == 'c' && "main deck"@[8] == 'k');
    reveal_strlit("maindeck");
    assert("maindeck"@.len() == 8 && "maindeck"@[0] == 'm' && "maindeck"@[1] == 'a' && "maindeck"@[2] == 'i' && "maindeck"@[3] == 'n' && "maindeck"@[4] == 'd' && "maindeck"@[5] == 'e' && "maindeck"@[6] == 'c' && "maindeck"@[7] == 'k');
    reveal_strlit("mainboard");
    assert("mainboard"@.len() == 9 && "mainboard"@[0] == 'm' && "mainboard"@[1] == 'a' && "mainboard"@[2] == 'i' && "mainboard"@[3] == 'n' && "mainboard"@[4] == 'b' && "mainboard"@[5] == 'o' && "mainboard"@[6] == 'a' && "mainboard"@[7] == 'r' && "mainboard"@[8] == 'd');
    reveal_strlit("rune");
    assert("rune"@.len() == 4 && "rune"@[0] == 'r' && "rune"@[1] == 'u' && "rune"@[2] == 'n' && "rune"@[3] == 'e');
    reveal_strlit("runes");
    assert("runes"@.len() == 5 && "runes"@[0] == 'r' && "runes"@[1] == 'u' && "runes"@[2] == 'n' && "runes"@[3] == 'e' && "runes"@[4] == 's');
    reveal_strlit("rune deck");
    assert("rune deck"@.len() == 9 && "rune deck"@[0] == 'r' && "rune deck"@[1] == 'u' && "rune deck"@[2] == 'n' && "rune deck"@[3] == 'e' && "rune deck"@[4] == ' ' && "rune deck"@[5] == 'd' && "rune deck"@[6] == 'e' && "rune deck"@[7] == 'c' && "rune deck"@[8] == 'k');
    reveal_strlit("battlefield");
    assert("battlefield"@.len() == 11 && "battlefield"@[0] == 'b' && "battlefield"@[1] == 'a' && "battlefield"@[2] == 't' && "battlefield"@[3] == 't' && "battlefield"@[4] == 'l' && "battlefield"@[5] == 'e' && "battlefield"@[6] == 'f' && "battlefield"@[7] == 'i' && "battlefield"@[8] == 'e' && "battlefield"@[9] == 'l' && "battlefield"@[10] == 'd');
    reveal_strlit("battlefields");
    assert("battlefields"@.len() == 12 && "battlefields"@[0] == 'b' && "battlefields"@[1] == 'a' && "battlefields"@[2] == 't' && "battlefields"@[3] == 't' && "battlefields"@[4] == 'l' && "battlefields"@[5] == 'e' && "battlefields"@[6] == 'f' && "battlefields"@[7] == 'i' && "battlefields"@[8] == 'e' && "battlefields"@[9] == 'l' && "battlefields"@[10] == 'd' && "battlefields"@[11] == 's');
    reveal_strlit("side");
    assert("side"@.len() == 4 && "side"@[0] == 's' && "side"@[1] == 'i' && "side"@[2] == 'd' && "side"@[3] == 'e');
    reveal_strlit("sideboard");
    assert("sideboard"@.len() == 9 && "sideboard"@[0] == 's' && "sideboard"@[1] == 'i' && "sideboard"@[2] == 'd' && "sideboard"@[3] == 'e' && "sideboard"@[4] == 'b' && "sideboard"@[5] == 'o' && "sideboard"@[6] == 'a' && "sideboard"@[7] == 'r' && "sideboard"@[8] == 'd');
    assert(lower_seq("Legend"@) =~= seq!['l', 'e', 'g', 'e', 'n', 'd']);
    assert(lower_seq("Unit"@) =~= seq!['u', 'n', 'i', 't']);
    assert(lower_seq("Spell"@) =~= seq!['s', 'p', 'e', 'l', 'l']);
    assert(lower_seq("Gear"@) =~= seq!['g', 'e', 'a', 'r']);
    assert(lower_seq("Rune"@) =~= seq!['r', 'u', 'n', 'e']);
    assert(lower_seq("Battlefield"@) =~= seq!['b', 'a', 't', 't', 'l', 'e', 'f', 'i', 'e', 'l', 'd']);
    assert(lower_seq("Other"@) =~= seq!['o', 't', 'h', 'e', 'r']);
    match kind {
        CardKind::Legend => {
            assert(lower_seq("Legend"@) =~= seq!['l', 'e', 'g', 'e', 'n', 'd']);
            assert("legend"@ =~= seq!['l', 'e', 'g', 'e', 'n', 'd']);
        },
        CardKind::Unit => {
            assert(lower_seq("Unit"@) =~= seq!['u', 'n', 'i', 't']);
        },
        CardKind::Spell => {
            assert(lower_seq("Spell"@) =~= seq!['s', 'p', 'e', 'l', 'l']);
        },
        CardKind::Gear => {
            assert(lower_seq("Gear"@) =~= seq!['g', 'e', 'a', 'r']);
        },
        CardKind::Rune => {
            assert(lower_seq("Rune"@) =~= seq!['r', 'u', 'n', 'e']);
            assert("rune"@ =~= seq!['r', 'u', 'n', 'e']);
        },
        CardKind::Battlefield => {
            assert(lower_seq("Battlefield"@) =~= seq!['b', 'a', 't', 't', 'l', 'e', 'f', 'i', 'e', 'l', 'd']);
            assert("battlefield"@ =~= seq!['b', 'a', 't', 't', 'l', 'e', 'f', 'i', 'e', 'l', 'd']);
        },
        CardKind::Other => {
            assert(lower_seq("Other"@) =~= seq!['o', 't', 'h', 'e', 'r']);
        },
    }
}

impl Game for Riftbound {
    type Section = Section;
    type Identifier = Identifier;
    type Card = CatalogCard;
    type Deck = ResolvedDeck;

    fn describe(identifier: &Identifier) -> (r: String)
        ensures
            r@ == described(*identifier),
    {
        match identifier {
            Identifier::Name(name) => name.clone(),
            Identifier::Code(code) => code.to_text(),
            Identifier::Id(id) => id.clone(),
        }
    }

    open spec fn keyed() -> bool {
        true
    }

    open spec fn key_of(identifier: Identifier) -> Seq<char> {
        cache_key_of(identifier)
    }

    fn cache_key(identifier: &Identifier) -> (r: String)
        ensures
            r@ == cache_key_of(*identifier),
    {
        match identifier {
            Identifier::Name(name) => {
                let mut out = chars_of("name:");
                extend(&mut out, chars_of(normalize_name(name.as_str()).as_str()).as_slice());
                string_of(out.as_slice())
            },
            Identifier::Code(code) => {
                let mut out = chars_of("id:");
                extend(&mut out, code.id_fragment_chars().as_slice());
                string_of(out.as_slice())
            },
            Identifier::Id(id) => {
                let mut out = chars_of("id:");
                extend(&mut out, lower_all(chars_of(id.as_str()).as_slice()).as_slice());
                string_of(out.as_slice())
            },
        }
    }

    open spec fn places(before: ResolvedDeck, section: Option<Section>, card: CatalogCard, count: u32, after: ResolvedDeck) -> bool {
        after@ == placed(before@, landing(section, card.kind), resolved_view(card), count)
    }

    fn place(deck: &mut ResolvedDeck, section: Option<Section>, card: CatalogCard, count: u32)
        ensures
            final(deck)@ == placed(old(deck)@, landing(section, card.kind), resolved_view(card), count),
    {
        let section = match section {
            Some(s) => Some(s),
            None => match card.kind {
                CardKind::Legend => Some(Section::Legend),
                CardKind::Rune => Some(Section::Runes),
                CardKind::Battlefield => Some(Section::Battlefields),
                _ => None,
            },
        };
        let card = card.resolved();
        match section {
            Some(Section::Legend) => {
                if deck.legend.is_none() {
                    deck.legend = Some(card.duplicate());
                    if count > 1 {
                        push_card(&mut deck.main_deck, card, count - 1);
                    }
                } else {
                    push_card(&mut deck.main_deck, card, count);
                }
            },
            Some(Section::Champion) => {
                if deck.chosen_champion.is_none() {
                    deck.chosen_champion = Some(card.duplicate());
                    if count > 1 {
                        push_card(&mut deck.main_deck, card, count - 1);
                    }
                } else {
                    push_card(&mut deck.main_deck, card, count);
                }
            },
            Some(Section::Runes) => push_card(&mut deck.runes, card, count),
            Some(Section::Battlefields) => push_card(&mut deck.battlefields, card, count),
            Some(Section::Sideboard) => push_card(&mut deck.sideboard, card, count),
            _ => push_card(&mut deck.main_deck, card, count),
        }
    }
}

/// Where a deck comes from: a deck code, a text list or a code list.
#[derive(Debug, Clone, PartialEq, Eq)]
pub enum DeckSource {
    Code(String),
    Text(String),
    CodeList(String),
}

/// Why a deck source does not parse.
#[derive(Debug, Clone, PartialEq, Eq)]
pub enum ParseError {
    Code(DeckCodeError),
    Text(TextError),
    CodeList(CodeListError),
    TcgArena(crate::riftbound::tcg_arena::Error),
}

/// The message a reader sees for a parse error: that of the error at its
/// root.
pub open spec fn parse_error_message(e: ParseError) -> Seq<char> {
    match e {
        ParseError::Code(x) => crate::riftbound::deck_code::code_error_message(x),
        ParseError::Text(x) => crate::deck::text_list::text_error_message(x),
        ParseError::CodeList(x) => crate::riftbound::code_list::code_list_message(x),
        ParseError::TcgArena(x) => crate::riftbound::tcg_arena::fault_message(x@),
    }
}

impl ParseError {
    /// The message a reader sees.
    pub fn message(&self) -> (r: String)
        ensures
            r@ == parse_error_message(*self),
    {
        match self {
            ParseError::Code(x) => x.message(),
            ParseError::Text(x) => x.message(),
            ParseError::CodeList(x) => x.message(),
            ParseError::TcgArena(x) => x.message(),
        }
    }
}

/// Whether a main-deck entry holds the first copy of the chosen champion.
pub open spec fn champion_seen(main: Seq<CodeEntry>, champion: Option<CardCode>) -> bool {
    exists|j: int| 0 <= j < main.len() && champion == Some((#[trigger] main[j]).code)
}

/// The main-deck entries of a decoded deck, with the chosen champion's
/// first copy taken out (it is listed on its own).
pub open spec fn main_entries(main: Seq<CodeEntry>, champion: Option<CardCode>) -> Seq<ParsedEntry>
    decreases main.len(),
{
    if main.len() == 0 {
        Seq::empty()
    } else {
        let before = main_entries(main.drop_last(), champion);
        let e = main.last();
        let hit = !champion_seen(main.drop_last(), champion) && champion == Some(e.code);
        let count = if hit { e.count - 1 } else { e.count as int };
        if count == 0 {
            before
        } else {
            before.push(ParsedEntry { identifier: Identifier::Code(e.code), count: count as u32, section: None })
        }
    }
}

pub open spec fn side_entries(side: Seq<CodeEntry>) -> Seq<ParsedEntry> {
    side.map_values(|e: CodeEntry| ParsedEntry {
        identifier: Identifier::Code(e.code),
        count: e.count,
        section: Some(Section::Sideboard),
    })
}

/// The list a decoded deck stands for: the main deck, the sideboard, then
/// the chosen champion.
pub open spec fn decoded_entries(main: Seq<CodeEntry>, side: Seq<CodeEntry>, champion: Option<CardCode>) -> Seq<ParsedEntry> {
    main_entries(main, champion) + side_entries(side) + match champion {
        Some(c) => seq![ParsedEntry { identifier: Identifier::Code(c), count: 1, section: Some(Section::Champion) }],
        None => Seq::empty(),
    }
}

/// The main-deck entry that holds the chosen champion's first copy has at
/// least one copy.
pub open spec fn champion_counted(main: Seq<CodeEntry>, champion: Option<CardCode>) -> bool {
    forall|j: int| 0 <= j < main.len() && champion == Some((#[trigger] main[j]).code)
        && !champion_seen(main.take(j), champion) ==> main[j].count >= 1
}

/// The deck list a decoded deck code stands for.
pub fn parsed_from_decoded(decoded: &DecodedDeck) -> (r: ParsedDeck)
    requires
        champion_counted(decoded.main@, decoded.champion),
    ensures
        r.entries@ == decoded_entries(decoded.main@, decoded.sideboard@, decoded.champion),
{
    let mut deck: ParsedDeck = crate::deck::ParsedDeck::new();
    let mut champion_taken = false;
    let mut i: usize = 0;
    while i < decoded.main.len()
        invariant
            i <= decoded.main@.len(),
            champion_counted(decoded.main@, decoded.champion),
            champion_taken == champion_seen(decoded.main@.take(i as int), decoded.champion),
            deck.entries@ == main_entries(decoded.main@.take(i as int), decoded.champion),
        decreases decoded.main@.len() - i,
    {
        let entry = decoded.main[i];
        let ghost prefix = decoded.main@.take(i as int);
        let mut count = entry.count;
        let hit = match decoded.champion {
            Some(c) => !champion_taken && c == entry.code,
            None => false,
        };
        assert(decoded.main@.take(i as int + 1).drop_last() =~= prefix);
        assert(decoded.main@.take(i as int + 1).last() == entry);
        if hit {
            champion_taken = true;
            assert(decoded.main@[i as int] == entry);
            count = count - 1;
        }
        proof {
            if !hit && champion_seen(decoded.main@.take(i as int + 1), decoded.champion) {
                let j = choose|j: int| 0 <= j < i + 1 && decoded.champion == Some((#[trigger] decoded.main@.take(i as int + 1)[j]).code);
                if j < i {
                    assert(decoded.main@.take(i as int + 1)[j] == prefix[j]);
                }
            }
            if hit {
                assert(decoded.main@.take(i as int + 1)[i as int] == entry);
            }
            if champion_seen(prefix, decoded.champion) {
                let j = choose|j: int| 0 <= j < prefix.len() && decoded.champion == Some((#[trigger] prefix[j]).code);
                assert(decoded.main@.take(i as int + 1)[j] == prefix[j]);
            }
        }
        if count > 0 {
            deck.entries.push(crate::deck::ParsedEntry { identifier: Identifier::Code(entry.code), count, section: None });
        }
        i = i + 1;
    }
    assert(decoded.main@.take(i as int) =~= decoded.main@);
    let ghost main_part = deck.entries@;
    let mut k: usize = 0;
    while k < decoded.sideboard.len()
        invariant
            k <= decoded.sideboard@.len(),
            deck.entries@ == main_part + side_entries(decoded.sideboard@.take(k as int)),
        decreases decoded.sideboard@.len() - k,
    {
        let entry = decoded.sideboard[k];
        deck.entries.push(crate::deck::ParsedEntry { identifier: Identifier::Code(entry.code), count: entry.count, section: Some(Section::Sideboard) });
        k = k + 1;
        assert(deck.entries@ =~= main_part + side_entries(decoded.sideboard@.take(k as int)));
    }
    assert(decoded.sideboard@.take(k as int) =~= decoded.sideboard@);
    match decoded.champion {
        Some(c) => {
            deck.entries.push(crate::deck::ParsedEntry { identifier: Identifier::Code(c), count: 1, section: Some(Section::Champion) });
        },
        None => {},
    }
    assert(deck.entries@ =~= decoded_entries(decoded.main@, decoded.sideboard@, decoded.champion));
    deck
}

/// Whether every deck a code decodes to can be listed.
pub open spec fn source_ok(source: DeckSource) -> bool {
    match source {
        DeckSource::Code(code) => match decode_text(code@) {
            Ok(d) => champion_counted(d.0, d.2),
            Err(_) => true,
        },
        _ => true,
    }
}

/// Reads a deck source into a deck list.
pub fn parse_deck(source: &DeckSource) -> (r: Result<ParsedDeck, ParseError>)
    requires
        source_ok(*source),
    ensures
        match *source {
            DeckSource::Code(code) => match decode_text(code@) {
                Ok(d) => r matches Ok(p) && p.entries@ == decoded_entries(d.0, d.1, d.2),
                Err(f) => r matches Err(ParseError::Code(e)) && e.is_fault(f),
            },
            DeckSource::Text(text) => match text_read::<Riftbound>(list_body(text@)) {
                Ok(cards) => r matches Ok(p) && entries_read::<Riftbound>(p.entries@, cards),
                Err(e) => r == Err::<ParsedDeck, ParseError>(ParseError::Text(e)),
            },
            DeckSource::CodeList(list) => match code_list_read(crate::text::words(list@)) {
                Ok(p) => r matches Ok(d) && d.entries@ == p,
                Err(e) => r matches Err(ParseError::CodeList(x)) && x.is_read_fault(e),
            },
        },
{
    match source {
        DeckSource::Code(code) => match crate::riftbound::deck_code::decode(code.as_str()) {
            Ok(decoded) => Ok(parsed_from_decoded(&decoded)),
            Err(e) => Err(ParseError::Code(e)),
        },
        DeckSource::Text(text) => match crate::riftbound::text_list::parse_text(text.as_str()) {
            Ok(p) => Ok(p),
            Err(e) => Err(ParseError::Text(e)),
        },
        DeckSource::CodeList(list) => match crate::riftbound::code_list::parse_code_list(list.as_str()) {
            Ok(p) => Ok(p),
            Err(e) => Err(ParseError::CodeList(e)),
        },
    }
}

/// How `parse_any` reads a paste: a TCG Arena JSON export; one token that
/// is a deck link carrying a code, a TCG Arena import link, or a deck code;
/// a Tabletop Simulator list; a code list; else a text list.
pub enum Route {
    Json,
    CodeUrl(Seq<char>),
    TcgUrl(Seq<char>),
    Code(Seq<char>),
    Tts,
    CodeList,
    Text,
}

pub open spec fn route(text: Seq<char>) -> Route {
    let t = trim(text);
    let ws = words(t);
    if t.len() > 0 && t[0] == '{' {
        Route::Json
    } else if ws.len() == 1 && url_code(ws[0]) is Some {
        Route::CodeUrl(url_code(ws[0])->Some_0)
    } else if ws.len() == 1 && site_of_url(ws[0]) == Some(Site::TcgArena) {
        Route::TcgUrl(ws[0])
    } else if ws.len() == 1 && decode_text(ws[0]) is Ok {
        Route::Code(ws[0])
    } else if tts_list(t) {
        Route::Tts
    } else if code_list_like(t) {
        Route::CodeList
    } else {
        Route::Text
    }
}

/// Whether every deck a code decodes to can be listed.
pub open spec fn code_listable(code: Seq<char>) -> bool {
    match decode_text(code) {
        Ok(d) => champion_counted(d.0, d.2),
        Err(_) => true,
    }
}

/// What `parse_any` needs of a paste: a code it decodes can be listed, and
/// a Tabletop Simulator list holds no more codes than a count can hold.
pub open spec fn any_ok(text: Seq<char>) -> bool {
    match route(text) {
        Route::CodeUrl(c) => code_listable(c),
        Route::Code(c) => code_listable(c),
        Route::Tts => words(trim(text)).len() <= u32::MAX,
        _ => true,
    }
}

/// Whether a paste reads.
pub open spec fn any_succeeds(text: Seq<char>) -> bool {
    match route(text) {
        Route::Json => json_import(text) is Ok,
        Route::CodeUrl(c) => decode_text(c) is Ok,
        Route::TcgUrl(u) => url_import(u) is Ok,
        Route::Code(c) => decode_text(c) is Ok,
        Route::Tts => code_list_read(words(tts_text(trim(text)))) is Ok,
        Route::CodeList => code_list_read(words(trim(text))) is Ok,
        Route::Text => text_read::<Riftbound>(list_body(text)) is Ok,
    }
}

/// The deck list a paste that reads gives.
pub open spec fn any_deck(text: Seq<char>, d: ParsedDeck) -> bool {
    match route(text) {
        Route::Json => json_entries(d.entries@, json_import(text)->Ok_0.0),
        Route::CodeUrl(c) => d.entries@ == decoded_entries(decode_text(c)->Ok_0.0, decode_text(c)->Ok_0.1, decode_text(c)->Ok_0.2),
        Route::TcgUrl(u) => entries_read::<Riftbound>(d.entries@, url_import(u)->Ok_0.0),
        Route::Code(c) => d.entries@ == decoded_entries(decode_text(c)->Ok_0.0, decode_text(c)->Ok_0.1, decode_text(c)->Ok_0.2),
        Route::Tts => d.entries@ == code_list_read(words(tts_text(trim(text))))->Ok_0,
        Route::CodeList => d.entries@ == code_list_read(words(trim(text)))->Ok_0,
        Route::Text => entries_read::<Riftbound>(d.entries@, text_read::<Riftbound>(list_body(text))->Ok_0),
    }
}

/// A title as plain values.
pub open spec fn opt_text(t: Option<String>) -> Option<Seq<char>> {
    match t {
        Some(s) => Some(s@),
        None => None,
    }
}

/// The title a paste that reads gives: a TCG Arena export's, if it has one.
pub open spec fn any_title(text: Seq<char>) -> Option<Seq<char>> {
    match route(text) {
        Route::Json => json_import(text)->Ok_0.1,
        Route::TcgUrl(u) => url_import(u)->Ok_0.1,
        _ => None,
    }
}

/// The error of a paste that does not read.
pub open spec fn any_error(text: Seq<char>, e: ParseError) -> bool {
    match route(text) {
        Route::Json => e matches ParseError::TcgArena(x) && x@ == json_import(text)->Err_0,
        Route::CodeUrl(c) => e matches ParseError::Code(x) && x.is_fault(decode_text(c)->Err_0),
        Route::TcgUrl(u) => e matches ParseError::TcgArena(x) && x@ == url_import(u)->Err_0,
        Route::Code(c) => e matches ParseError::Code(x) && x.is_fault(decode_text(c)->Err_0),
        Route::Tts => e matches ParseError::CodeList(x) && x.is_read_fault(code_list_read(words(tts_text(trim(text))))->Err_0),
        Route::CodeList => e matches ParseError::CodeList(x) && x.is_read_fault(code_list_read(words(trim(text)))->Err_0),
        Route::Text => e == ParseError::Text(text_read::<Riftbound>(list_body(text))->Err_0),
    }
}

/// Reads a pasted deck in whatever form it comes, with the title a TCG
/// Arena export gives it.
#[verifier::loop_isolation(false)]
pub fn parse_any_with_title(text: &str) -> (r: Result<(ParsedDeck, Option<String>), ParseError>)
    requires
        any_ok(text@),
    ensures
        r is Ok <==> any_succeeds(text@),
        r matches Ok((d, t)) ==> any_deck(text@, d) && opt_text(t) == any_title(text@),
        r matches Err(e) ==> any_error(text@, e),
{
    let cs = chars_of(text);
    let trimmed = trim_of(cs.as_slice());
    if trimmed.len() > 0 && trimmed[0] == '{' {
        return match crate::riftbound::tcg_arena::parse_json(text) {
            Ok(imported) => Ok((imported.deck, imported.title)),
            Err(e) => Err(ParseError::TcgArena(e)),
        };
    }
    let tokens = words_of(trimmed.as_slice());
    if tokens.len() == 1 {
        let single = string_of(tokens[0].as_slice());
        assert(single@ == words(trim(text@))[0]);
        match code_in_url(single.as_str()) {
            Some(code) => {
                return match parse_deck(&DeckSource::Code(code)) {
                    Ok(deck) => Ok((deck, None)),
                    Err(e) => Err(e),
                };
            },
            None => {},
        }
        let tcg = match classify(single.as_str()) {
            Some(Site::TcgArena) => true,
            _ => false,
        };
        if tcg {
            return match crate::riftbound::tcg_arena::parse_url(single.as_str()) {
                Ok(imported) => Ok((imported.deck, imported.title)),
                Err(e) => Err(ParseError::TcgArena(e)),
            };
        }
        let decodes = match crate::riftbound::deck_code::decode(single.as_str()) {
            Ok(_) => true,
            Err(_) => false,
        };
        if decodes {
            return match parse_deck(&DeckSource::Code(single)) {
                Ok(deck) => Ok((deck, None)),
                Err(e) => Err(e),
            };
        }
    }
    let trimmed_text = string_of(trimmed.as_slice());
    if looks_like_tts_list(trimmed_text.as_str()) {
        let list = from_tts(trimmed_text.as_str());
        return match parse_deck(&DeckSource::CodeList(list)) {
            Ok(deck) => Ok((deck, None)),
            Err(e) => Err(e),
        };
    }
    if looks_like_code_list(trimmed_text.as_str()) {
        return match parse_deck(&DeckSource::CodeList(trimmed_text)) {
            Ok(deck) => Ok((deck, None)),
            Err(e) => Err(e),
        };
    }
    match parse_deck(&DeckSource::Text(string_of(cs.as_slice()))) {
        Ok(deck) => Ok((deck, None)),
        Err(e) => Err(e),
    }
}

/// Reads a pasted deck in whatever form it comes.
pub fn parse_any(text: &str) -> (r: Result<ParsedDeck, ParseError>)
    requires
        any_ok(text@),
    ensures
        r is Ok <==> any_succeeds(text@),
        r matches Ok(d) ==> any_deck(text@, d),
        r matches Err(e) ==> any_error(text@, e),
{
    match parse_any_with_title(text) {
        Ok((deck, _)) => Ok(deck),
        Err(e) => Err(e),
    }
}

} // verus!
