use agni::riftbound::card_code::CardCode;
use agni::riftbound::text_list::{deck_block, parse_text, split_bracketed_code, TextError};
use agni::riftbound::{Identifier, ParsedEntry, Section};

fn name(entry: &ParsedEntry) -> &str {
    match &entry.identifier {
        Identifier::Name(name) => name,
        other => panic!("expected a name, got {other:?}"),
    }
}

#[test]
fn lines_parse_to_named_identifiers() {
    let deck = parse_text("3 Emberwing Scout\nLone Wanderer\n").unwrap();
    assert_eq!(deck.entries.len(), 2);
    assert_eq!(deck.entries[0].count, 3);
    assert_eq!(name(&deck.entries[0]), "Emberwing Scout");
    assert_eq!(name(&deck.entries[1]), "Lone Wanderer");
}

#[test]
fn text_list_section_headers_assign_zones() {
    let text = "Legend\n1 Vanguard Sentinel\nChampion:\n1 Emberwing Scout\nMain Deck (40)\n3 Gloomvale Trickster\nRunes (12)\n12 Ember Rune\nBattlefields\n1 Sunken Causeway\nSideboard\n2 Duskwatch Warden\n";
    let deck = parse_text(text).unwrap();
    let sections: Vec<Option<Section>> = deck.entries.iter().map(|entry| entry.section).collect();
    assert_eq!(
        sections,
        vec![
            Some(Section::Legend),
            Some(Section::Champion),
            Some(Section::Main),
            Some(Section::Runes),
            Some(Section::Battlefields),
            Some(Section::Sideboard),
        ]
    );
    let text = "Commander\n1 Serelith, Tidebound Oracle\nDeck (60)\n4 Thornspire Adept\nSideboard:\n2 Cinderveil Ward\n";
    let deck = agni::mtg::text_list::parse_text(text).unwrap();
    let sections: Vec<Option<agni::mtg::Section>> =
        deck.entries.iter().map(|entry| entry.section).collect();
    assert_eq!(
        sections,
        vec![
            Some(agni::mtg::Section::Commander),
            Some(agni::mtg::Section::Main),
            Some(agni::mtg::Section::Sideboard),
        ]
    );
}

#[test]
fn a_line_that_is_a_card_code_becomes_a_code_not_a_name() {
    let deck = parse_text("1 UNL-230\n1 unl-189-219\n1 Lillia - Bashful Bloom\n").unwrap();
    assert_eq!(
        deck.entries[0].identifier,
        Identifier::Code(CardCode::parse("UNL-230").unwrap())
    );
    assert_eq!(
        deck.entries[1].identifier,
        Identifier::Code(CardCode::parse("UNL-189").unwrap())
    );
    assert_eq!(name(&deck.entries[2]), "Lillia - Bashful Bloom");
}

#[test]
fn text_list_a_card_named_like_a_header_still_parses_as_a_card() {
    let deck = parse_text("2 Battlefields of Old\n").unwrap();
    assert_eq!(name(&deck.entries[0]), "Battlefields of Old");
    assert_eq!(deck.entries[0].section, None);
}

#[test]
fn opp_codes_in_a_text_list_become_codes() {
    let deck = parse_text("1 OPP-083\n1 opp-083-298\n1 OPP-SP1\n2 VEN-040-166\n").unwrap();
    let opp = CardCode::parse("OPP-083").unwrap();
    assert_eq!(deck.entries[0].identifier, Identifier::Code(opp));
    assert_eq!(deck.entries[1].identifier, Identifier::Code(opp));
    assert_eq!(
        deck.entries[2].identifier,
        Identifier::Code(CardCode::parse("OPP-SP1").unwrap())
    );
    assert_eq!(
        deck.entries[3].identifier,
        Identifier::Code(CardCode::parse("VEN-040").unwrap())
    );
}

#[test]
fn a_fenced_block_pasted_whole_parses_like_its_body() {
    let body = "Legend\n1 Lillia - Bashful Bloom\nMain Deck (39)\n3 Defy\n";
    let fenced = format!("```\n{body}```\n");
    assert_eq!(parse_text(&fenced).unwrap(), parse_text(body).unwrap());
    let indented = format!("  ```text\n{body}  ```");
    assert_eq!(parse_text(&indented).unwrap(), parse_text(body).unwrap());
    assert_eq!(parse_text("```\n```\n"), Err(TextError::Empty));
}

#[test]
fn the_deck_block_reader_stops_at_the_next_heading() {
    let markdown = "# Deck\n\n## Deck\n\n```\nLegend\n1 Vanguard Sentinel\n```\n\n## Cards\n\n- **Vanguard Sentinel** (ogn-201-298; Legend; Fury; ): text\n";
    assert_eq!(
        deck_block(markdown).as_deref(),
        Some("Legend\n1 Vanguard Sentinel")
    );
    assert_eq!(deck_block("# Deck\n\n## Cards\n\n```\n1 x\n```\n"), None);
    assert_eq!(deck_block("## Deck\n\n```\n1 x\n"), None);
}

#[test]
fn a_bracketed_code_names_the_card() {
    assert_eq!(
        split_bracketed_code("Charm [OGN-043]"),
        ("Charm".to_string(), Some("OGN-043".to_string()))
    );
    assert_eq!(
        split_bracketed_code("Charm [not a code!]"),
        ("Charm [not a code!]".to_string(), None)
    );
    let deck = parse_text("2 Whoever [OGN-043]\n").unwrap();
    assert_eq!(
        deck.entries[0].identifier,
        Identifier::Code(CardCode::parse("OGN-043").unwrap())
    );
}
