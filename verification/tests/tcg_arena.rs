use agni::json::Json;
use agni::riftbound::tcg_arena::{base64_decode, import_of, parse, parse_json, parse_text, parse_url, percent_decode, section, Error};
use agni::riftbound::{Identifier, Section};

const TEXT: &str = "1 Synthetic Legend\n1 Synthetic Champion\n1 Synthetic Battlefield\n12 Synthetic Rune\n3 Synthetic Unit\nSideboard:\n2 Synthetic Side\n";

#[test]
fn parses_tcg_arena_text_with_sideboard() {
    let imported = parse_text(TEXT).unwrap();
    assert_eq!(imported.deck.entries.len(), 6);
    assert_eq!(imported.deck.entries[0].section, None);
    assert_eq!(imported.deck.entries[5].section, Some(Section::Sideboard));
}

#[test]
fn parses_the_public_tcg_arena_import_url_without_fetching() {
    let url = "https://tcg-arena.fr/import?game=Riftbound&name=Synthetic&deck=MSBTeW50aGV0aWMgTGVnZW5kCg==";
    let imported = parse_url(url).unwrap();
    assert_eq!(imported.title.as_deref(), Some("Synthetic"));
    assert_eq!(imported.deck.entries.len(), 1);
}

#[test]
fn rejects_lookalike_hosts_and_other_paths() {
    assert!(
        parse_url("https://tcg-arena.fr.evil.test/import?game=Riftbound&deck=QQ==").is_err()
    );
    assert!(parse_url("https://tcg-arena.fr/load/QQ==").is_err());
}

#[test]
fn rejects_malformed_base64_padding() {
    for deck in ["QQ=", "QR==", "QQ==x", "Q==="] {
        let url = format!("https://tcg-arena.fr/import?game=Riftbound&deck={deck}");
        assert!(parse_url(&url).is_err(), "{deck}");
    }
}

#[test]
fn link_errors_name_what_is_wrong() {
    let other = parse_url("https://tcg-arena.fr/import?game=Lorcana&deck=QQ==").unwrap_err();
    assert_eq!(other, Error::InvalidUrl("the URL is for a different game".into()));
    assert_eq!(
        other.message(),
        "the TCG Arena deck URL is invalid: the URL is for a different game"
    );
    assert_eq!(
        parse_url("https://tcg-arena.fr/import?game=riftbound").unwrap_err(),
        Error::InvalidUrl("missing deck parameter".into())
    );
    assert_eq!(
        parse_url("https://tcg-arena.fr/import?game=riftbound&deck=%4").unwrap_err(),
        Error::InvalidUrl("bad percent escape".into())
    );
    assert_eq!(
        parse_url("http://tcg-arena.fr/import?deck=QQ==").unwrap_err(),
        Error::InvalidUrl("only https://tcg-arena.fr is supported".into())
    );
    let blank_title =
        parse_url("https://tcg-arena.fr/import?game=Riftbound&name=%20&deck=MSBTeW50aGV0aWMgTGVnZW5kCg==")
            .unwrap();
    assert_eq!(blank_title.title, None);
}

#[test]
fn base64_and_percent_escapes_decode_exactly() {
    assert_eq!(base64_decode("QQ==").unwrap(), "A");
    assert_eq!(base64_decode("QUJD").unwrap(), "ABC");
    assert_eq!(
        base64_decode("QR==").unwrap_err(),
        Error::InvalidUrl("deck has malformed base64 padding".into())
    );
    assert_eq!(
        base64_decode("Q!==").unwrap_err(),
        Error::InvalidUrl("deck is not base64".into())
    );
    assert_eq!(
        base64_decode("/w==").unwrap_err(),
        Error::InvalidUrl("deck is not UTF-8".into())
    );
    assert_eq!(percent_decode("a%20b%2Fc").unwrap(), "a b/c");
    assert_eq!(
        percent_decode("%ff").unwrap_err(),
        Error::InvalidUrl("parameter is not UTF-8".into())
    );
    assert_eq!(
        percent_decode("%zz1").unwrap_err(),
        Error::InvalidUrl("bad percent escape".into())
    );
}

#[test]
fn categories_name_their_zones() {
    assert_eq!(section("Chosen Champion"), Section::Champion);
    assert_eq!(section("chosen-champion"), Section::Champion);
    assert_eq!(section("Battlefield"), Section::Battlefields);
    assert_eq!(section("RUNES"), Section::Runes);
    assert_eq!(section("Side"), Section::Sideboard);
    assert_eq!(section("Legend"), Section::Legend);
    assert_eq!(section("Units"), Section::Main);
}

#[test]
fn an_export_without_copies_or_with_too_many_is_refused() {
    assert_eq!(parse_text("").unwrap_err(), Error::Empty);
    assert_eq!(parse_text("5000 Synthetic Unit\n").unwrap_err(), Error::TooLarge);
    assert_eq!(
        parse_text("Sideboard\n").unwrap_err(),
        Error::InvalidExport("the deck list is empty".into())
    );
}

#[test]
fn parses_starter_deck_json_by_category_and_id() {
    let json = r#"{"title":"Synthetic","game":"Riftbound","deckList":{"categoriesOrder":["Legend","Chosen_Champion","Battlefields","Runes","Units"],"Legend":[{"count":1,"id":"SYN-001"}],"Chosen_Champion":[{"count":1,"id":"SYN-002"}],"Battlefields":[{"count":2,"id":"SYN-003"}],"Runes":[{"count":12,"id":"SYN-004"}],"Units":[{"count":3,"id":"SYN-005"}],"Sideboard":[{"count":2,"id":"SYN-006"}]}}"#;
    let imported = parse_json(json).unwrap();
    assert_eq!(imported.title.as_deref(), Some("Synthetic"));
    assert_eq!(
        imported.deck.entries[0].identifier,
        Identifier::Id("SYN-001".into())
    );
    assert_eq!(imported.deck.entries[1].section, Some(Section::Champion));
    assert_eq!(
        imported.deck.entries[2].section,
        Some(Section::Battlefields)
    );
    assert_eq!(imported.deck.entries[3].section, Some(Section::Runes));
    assert_eq!(imported.deck.entries[5].section, Some(Section::Sideboard));
}

#[test]
fn rejects_json_for_another_game() {
    let json = r#"{"game":"Magic: The Gathering","deckList":{"categoriesOrder":[]}}"#;
    assert!(parse_json(json).unwrap_err().message().contains("Riftbound"));
}

#[test]
fn rejects_repeated_or_missing_categories() {
    let repeated =
        r#"{"game":"Riftbound","deckList":{"categoriesOrder":["Units","Units"],"Units":[]}}"#;
    let missing = r#"{"game":"Riftbound","deckList":{"categoriesOrder":["Units"]}}"#;
    assert!(parse_json(repeated).is_err());
    assert!(parse_json(missing).is_err());
}

#[test]
fn rejects_counts_that_could_expand_without_bound() {
    let json = r#"{"game":"Riftbound","deckList":{"categoriesOrder":["Units"],"Units":[{"count":4294967295,"id":"SYN-001"}]}}"#;
    assert!(parse_json(json).is_err());
}

#[test]
fn json_errors_name_what_is_wrong() {
    let message = |json: &str| parse_json(json).unwrap_err().message();
    assert_eq!(
        message(r#"{"game":"Riftbound","deckList":{"categoriesOrder":["Units","Units"],"Units":[]}}"#),
        "the TCG Arena deck export is invalid: categoriesOrder repeats Units"
    );
    assert_eq!(
        message(r#"{"game":"Riftbound","deckList":{"categoriesOrder":["Units"]}}"#),
        "the TCG Arena deck export is invalid: category Units is missing or not an array"
    );
    assert_eq!(
        message(r#"{"game":"Riftbound"}"#),
        "the TCG Arena deck export is invalid: missing deckList"
    );
    assert_eq!(
        message(r#"{"game":"Riftbound","deckList":{}}"#),
        "the TCG Arena deck export is invalid: missing categoriesOrder"
    );
    assert_eq!(
        message(r#"{"game":"Riftbound","deckList":{"categoriesOrder":[" "]}}"#),
        "the TCG Arena deck export is invalid: categoriesOrder contains a non-name"
    );
    assert_eq!(
        message(r#"{"game":"Riftbound","deckList":{"categoriesOrder":["Units"],"Units":[{"count":1}]}}"#),
        "the TCG Arena deck export is invalid: deck entry has no card id"
    );
    assert_eq!(
        message(r#"{"game":"Riftbound","deckList":{"categoriesOrder":["Units"],"Units":[{"id":"SYN-001"}]}}"#),
        "the TCG Arena deck export is invalid: deck entry has no count"
    );
    assert_eq!(
        message(r#"{"game":"Riftbound","deckList":{"categoriesOrder":["Units"],"Units":[{"id":"SYN-001","count":"2"}]}}"#),
        "the TCG Arena deck export is invalid: card count is not an integer"
    );
    assert_eq!(
        message(r#"{"game":"Riftbound","deckList":{"categoriesOrder":["Units"],"Units":[3]}}"#),
        "the TCG Arena deck export is invalid: deck entry is not an object"
    );
    assert_eq!(
        message(r#"{"game":"Riftbound","deckList":{"categoriesOrder":["Units"],"Units":[]}}"#),
        "the TCG Arena deck export is empty"
    );
    assert!(message("{not json").starts_with("the TCG Arena deck JSON is invalid: "));
    assert_eq!(parse_json(""), Err(Error::Empty));
}

#[test]
fn a_json_export_without_a_game_is_read() {
    let json = r#"{"title":"Untitled game","deckList":{"categoriesOrder":["Units"],"Units":[{"count":2,"id":"SYN-005"}],"Sideboard":[{"count":1,"id":"SYN-006"}]}}"#;
    let imported = parse_json(json).unwrap();
    assert_eq!(imported.deck.entries.len(), 2);
    assert_eq!(imported.deck.entries[0].count, 2);
    assert_eq!(imported.deck.entries[0].section, Some(Section::Main));
    assert_eq!(imported.deck.entries[1].section, Some(Section::Sideboard));
}

#[test]
fn an_export_is_read_as_json_or_text_by_its_first_character() {
    let json = r#"  {"game":"riftbound","deckList":{"categoriesOrder":["Legend"],"Legend":[{"count":1,"id":"SYN-001"}]}}"#;
    let from_json = parse(json).unwrap();
    assert_eq!(from_json.deck.entries[0].identifier, Identifier::Id("SYN-001".into()));
    let from_text = parse(TEXT).unwrap();
    assert_eq!(from_text.deck.entries.len(), 6);
    assert_eq!(from_text.title, None);
}

#[test]
fn a_document_read_elsewhere_imports_the_same_way() {
    let root = Json::Object(vec![
        ("game".to_string(), Json::Text("Riftbound".to_string())),
        ("title".to_string(), Json::Text("Built".to_string())),
        (
            "deckList".to_string(),
            Json::Object(vec![
                (
                    "categoriesOrder".to_string(),
                    Json::Array(vec![Json::Text("Runes".to_string())]),
                ),
                (
                    "Runes".to_string(),
                    Json::Array(vec![Json::Object(vec![
                        ("count".to_string(), Json::Number(Some(12))),
                        ("id".to_string(), Json::Text("SYN-004".to_string())),
                    ])]),
                ),
            ]),
        ),
    ]);
    let imported = import_of(&root).unwrap();
    assert_eq!(imported.title.as_deref(), Some("Built"));
    assert_eq!(imported.deck.entries[0].count, 12);
    assert_eq!(imported.deck.entries[0].section, Some(Section::Runes));
}
