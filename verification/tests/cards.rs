use agni::cards::{catalog_name, Card};

#[test]
fn a_new_card_has_no_external_ids() {
    let card = Card::new("riftbound", "Lillia - Fae Fawn");
    assert_eq!(card.game, "riftbound");
    assert_eq!(card.name, "Lillia - Fae Fawn");
    assert!(card.external.is_empty());
}

#[test]
fn an_external_id_replaces_the_one_under_its_key() {
    let card = Card::new("mtg", "Opt")
        .external("scryfall", "a")
        .external("tcgplayer", "b")
        .external("scryfall", "c");
    assert_eq!(
        card.external,
        vec![
            ("scryfall".to_string(), "c".to_string()),
            ("tcgplayer".to_string(), "b".to_string()),
        ]
    );
    assert_eq!(catalog_name("mtg"), "cards/mtg");
}
