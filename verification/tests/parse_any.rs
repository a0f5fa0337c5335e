use agni::riftbound::card_code::CardCode;
use agni::riftbound::deck_code::{encode, CodeEntry, DecodedDeck};
use agni::riftbound::link::{classify, piltover_url, Site};
use agni::riftbound::{parse_any, parse_any_with_title, Identifier, ParseError, Section};

fn sample_code() -> String {
    encode(&DecodedDeck {
        main: vec![
            CodeEntry {
                code: CardCode::parse("OGN-201").unwrap(),
                count: 1,
            },
            CodeEntry {
                code: CardCode::parse("OGN-007").unwrap(),
                count: 3,
            },
        ],
        sideboard: Vec::new(),
        champion: Some(CardCode::parse("OGN-007").unwrap()),
    })
    .unwrap()
}

#[test]
fn a_pasted_tcg_arena_import_url_uses_the_url_parser() {
    let url = "https://tcg-arena.fr/import?game=Riftbound&name=Synthetic&deck=MSBTeW50aGV0aWMgTGVnZW5kCg==";
    let parsed = parse_any(url).unwrap();
    assert_eq!(parsed.entries.len(), 1);
    assert_eq!(
        parsed.entries[0].identifier,
        Identifier::Name("Synthetic Legend".into())
    );
}

#[test]
fn a_pasted_tcg_arena_json_uses_the_json_parser() {
    let json = r#"{"game":"Riftbound","title":"Synthetic","deckList":{"categoriesOrder":["Legend"],"Legend":[{"count":1,"id":"SYN-001"}]}}"#;
    let (parsed, title) = parse_any_with_title(json).unwrap();
    assert_eq!(parsed.entries.len(), 1);
    assert_eq!(title.as_deref(), Some("Synthetic"));
}

#[test]
fn tcg_arena_links_classify_as_their_own_site() {
    assert_eq!(
        classify("https://www.TCG-Arena.fr/import?deck=QQ=="),
        Some(Site::TcgArena)
    );
    assert_eq!(classify("https://tcg-arena.fr.evil.test/import"), None);
}

#[test]
fn a_pasted_deck_code_reads_as_its_deck_with_the_champion_last() {
    let code = sample_code();
    for text in [format!("  {code}\n"), piltover_url(&code)] {
        let (parsed, title) = parse_any_with_title(&text).unwrap();
        assert_eq!(title, None);
        assert_eq!(parsed.entries.len(), 3);
        let scout = Identifier::Code(CardCode::parse("OGN-007").unwrap());
        let listed = parsed
            .entries
            .iter()
            .find(|entry| entry.identifier == scout && entry.section.is_none())
            .unwrap();
        assert_eq!(listed.count, 2);
        assert_eq!(parsed.entries[2].identifier, scout);
        assert_eq!(parsed.entries[2].section, Some(Section::Champion));
    }
}

#[test]
fn code_lists_and_tabletop_lists_read_by_code() {
    let listed = parse_any("OGN-007-3 OGN-042-12").unwrap();
    assert_eq!(listed.entries.len(), 2);
    assert_eq!(listed.entries[1].count, 12);
    let tabletop = parse_any("OGN-042-1 OGN-007-1 OGN-042-1").unwrap();
    assert_eq!(tabletop.entries.len(), 2);
    assert_eq!(
        tabletop.entries[0].identifier,
        Identifier::Code(CardCode::parse("OGN-042").unwrap())
    );
    assert_eq!(tabletop.entries[0].count, 2);
}

#[test]
fn anything_else_reads_as_a_text_list() {
    let (parsed, title) = parse_any_with_title("Legend:\n1 Vanguard Sentinel\n\nMainDeck:\n3 Emberwing Scout\n").unwrap();
    assert_eq!(title, None);
    assert_eq!(parsed.entries.len(), 2);
    assert_eq!(parsed.entries[0].section, Some(Section::Legend));
    assert_eq!(parsed.entries[1].count, 3);
    assert!(matches!(parse_any(""), Err(ParseError::Text(_))));
    assert!(matches!(
        parse_any("{\"game\":\"Other\"}"),
        Err(ParseError::TcgArena(_))
    ));
}
