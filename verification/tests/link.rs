use agni::riftbound::card_code::CardCode;
use agni::riftbound::deck_code::{encode, CodeEntry, DecodedDeck};
use agni::riftbound::link::{
    classify, code_in_url, extract, host_of, piltover_url, riftatlas_url, scan_for_code, title,
    Extracted, Site,
};
use agni::riftbound::{Identifier, Section};

fn sample_code() -> String {
    encode(&DecodedDeck {
        main: vec![
            CodeEntry {
                code: CardCode::parse("OGN-201").unwrap(),
                count: 1,
            },
            CodeEntry {
                code: CardCode::parse("OGN-007").unwrap(),
                count: 3,
            },
        ],
        sideboard: Vec::new(),
        champion: Some(CardCode::parse("OGN-007").unwrap()),
    })
    .unwrap()
}

#[test]
fn urls_classify_by_host_alone() {
    assert_eq!(
        classify("https://piltoverarchive.com/decks/view/abc"),
        Some(Site::PiltoverArchive)
    );
    assert_eq!(
        classify("https://www.riftdecks.com/riftbound-metagame/deck-x-1"),
        Some(Site::RiftDecks)
    );
    assert_eq!(classify("http://riftmana.com/decks/"), Some(Site::RiftMana));
    assert_eq!(classify("https://example.com/piltoverarchive.com"), None);
    assert_eq!(classify("https://evil.com/?u=riftdecks.com"), None);
    assert_eq!(classify("https://piltoverarchive.com.evil.com/x"), None);
    assert_eq!(classify("https://user@evil.com:443/riftmana.com"), None);
}

#[test]
fn the_piltover_link_round_trips_through_the_page_extractor() {
    let code = sample_code();
    let url = piltover_url(&code);
    assert_eq!(
        url,
        format!("https://piltoverarchive.com/deckbuilder?code={code}")
    );
    assert_eq!(classify(&url), Some(Site::PiltoverArchive));
    let page = format!("<html><a href=\"{url}\">open</a></html>");
    assert_eq!(
        extract(Site::PiltoverArchive, &page).unwrap(),
        Extracted::Code(code.clone())
    );
    assert_eq!(
        extract(Site::PiltoverArchive, &url).unwrap(),
        Extracted::Code(code.clone())
    );
    assert_eq!(piltover_url(&format!("  {code}\n")), url);
}

#[test]
fn a_piltover_page_yields_its_deckbuilder_code() {
    let code = sample_code();
    let body = format!(
        "<html><a class=\"btn\" href=\"/deckbuilder?code={code}\">Open in builder</a></html>"
    );
    assert_eq!(
        extract(Site::PiltoverArchive, &body),
        Ok(Extracted::Code(code))
    );
}

#[test]
fn a_riftmana_page_yields_any_embedded_code() {
    let code = sample_code();
    let body = format!("<div>SHOUTING TEXT 22345 <span>{code}</span></div>");
    assert_eq!(extract(Site::RiftMana, &body), Ok(Extracted::Code(code)));
}

#[test]
fn pages_without_a_deck_explain_the_fallback() {
    let error = extract(Site::RiftMana, "<html>nothing here</html>").unwrap_err();
    assert!(error.message().contains("paste the deck code"));
}

#[test]
fn a_riftdecks_row_without_an_image_falls_back_to_the_linked_name() {
    let body: &str = &[
        "<tr class=\"card-list-item\" data-card-type='unit' data-quantity='2'>",
        "<td><a href=\"/cards/details-lillia-fae-fawn\">\n  Lillia, Fae Fawn\n</a></td></tr>",
        "<tr class=\"card-list-item\" data-quantity=\"0\" ",
        "data-image-src=\"/img/cards/riftbound/OGN/ogn-007-298_full.png\"></tr>",
        "<tr class=\"card-list-item\" data-quantity=\"1\" data-card-type=\"Runes\" ",
        "data-image-src=\"/img/cards/riftbound/OGN/OGN-042-298_full.png\"></tr>",
    ]
    .concat();
    let Ok(Extracted::Deck(deck)) = extract(Site::RiftDecks, body) else {
        panic!("expected a deck");
    };
    assert_eq!(deck.entries.len(), 2);
    assert_eq!(
        deck.entries[0].identifier,
        Identifier::Name("Lillia, Fae Fawn".into())
    );
    assert_eq!(deck.entries[0].count, 2);
    assert_eq!(
        deck.entries[1].identifier,
        Identifier::Id("ogn-042-298".into())
    );
    assert_eq!(deck.entries[1].section, Some(Section::Runes));
}

#[test]
fn a_riftdecks_page_yields_ids_counts_and_zones() {
    let body: &str = &[
        "<table><tr class=\"card-list-item\" data-card-type=\"legend\" ",
        "data-orientation=\"portrait\" data-quantity=\"1\" ",
        "data-image-src=\"/img/cards/riftbound/OGN/ogn-201-298_full.png\">",
        "<td>Vanguard Sentinel</td></tr>",
        "<tr class=\"card-list-item\" data-card-type=\"unit\" ",
        "data-quantity=\"3\" ",
        "data-image-src=\"/img/cards/riftbound/OGN/ogn-007-298_full.png\"></tr>",
        "<tr class=\"card-list-item\" data-card-type=\"runes\" ",
        "data-quantity=\"12\" ",
        "data-image-src=\"/img/cards/riftbound/OGN/ogn-042-298_full.png\"></tr>",
        "<tr class=\"card-list-item\" data-card-type=\"sideboard\" ",
        "data-quantity=\"2\" ",
        "data-image-src=\"/img/cards/riftbound/OGN/ogn-088-298_full.png\"></tr>",
        "</table>",
    ]
    .concat();
    let Ok(Extracted::Deck(deck)) = extract(Site::RiftDecks, body) else {
        panic!("expected a deck");
    };
    assert_eq!(deck.entries.len(), 4);
    assert_eq!(
        deck.entries[0].identifier,
        Identifier::Id("ogn-201-298".into())
    );
    assert_eq!(deck.entries[0].section, Some(Section::Legend));
    assert_eq!(deck.entries[1].section, None);
    assert_eq!(deck.entries[2].section, Some(Section::Runes));
    assert_eq!(deck.entries[2].count, 12);
    assert_eq!(deck.entries[3].section, Some(Section::Sideboard));
}

#[test]
fn page_titles_drop_the_site_name_and_decode_entities() {
    assert_eq!(
        title("<html><head><title>  8/14/2026 nasus by ThunderTrees | riftDecks.com</title></head></html>")
            .as_deref(),
        Some("8/14/2026 nasus by ThunderTrees")
    );
    assert_eq!(
        title("<meta property=\"og:title\" content=\"Tom &amp; Jerry&#39;s &quot;deck&quot;\">")
            .as_deref(),
        Some("Tom & Jerry's \"deck\"")
    );
    assert_eq!(title("<html><body>nothing</body></html>"), None);
    assert_eq!(title("<meta name=\"og:title\" content=\"\">"), None);
    assert_eq!(title("<title>caf&#xE9; &#x1F600; &bogus; & co</title>").as_deref(), Some("café 😀 &bogus; & co"));
}

#[test]
fn site_links_carry_their_codes() {
    let code = sample_code();
    assert_eq!(code_in_url(&piltover_url(&code)), Some(code.clone()));
    assert_eq!(code_in_url(&riftatlas_url(&code)), Some(code.clone()));
    assert_eq!(
        code_in_url(&format!("https://play.riftatlas.com/?savedDeckId=x&deckCode={code}#hub")),
        Some(code.clone())
    );
    assert_eq!(code_in_url("https://riftdecks.com/deck/1"), None);
    assert_eq!(
        code_in_url("https://piltoverarchive.com/deckbuilder?code=nope"),
        None
    );
    assert_eq!(host_of("https://user@Example.com:8080/path"), Some("Example.com".to_string()));
    assert_eq!(host_of("//"), None);
    assert_eq!(scan_for_code(&format!("x {code} y")), Some(code));
    assert_eq!(scan_for_code("ABCDEFGHIJKLMNOPQRSTUV"), None);
}

#[test]
fn the_saved_riftdecks_page_carries_its_title() {
    assert_eq!(
        title("<html><head><title>  8/14/2026 nasus by ThunderTrees | riftDecks.com</title></head></html>")
            .as_deref(),
        Some("8/14/2026 nasus by ThunderTrees")
    );
    assert_eq!(
        title("<meta property=\"og:title\" content=\"Tom &amp; Jerry&#39;s &quot;deck&quot;\">")
            .as_deref(),
        Some("Tom & Jerry's \"deck\"")
    );
    assert_eq!(title("<html><body>nothing</body></html>"), None);
    assert_eq!(title("<meta name=\"og:title\" content=\"\">"), None);
}
