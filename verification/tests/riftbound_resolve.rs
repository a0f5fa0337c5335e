use agni::riftbound::card_code::CardCode;
use agni::riftbound::catalog::{CardKind, CatalogCard, StaticCatalog};
use agni::riftbound::deck_code::{encode, CodeEntry, DecodedDeck};
use agni::riftbound::resolve::{alias_of, base_name, canonical_name, infer_champion, resolve};
use agni::riftbound::resolved::{DeckEntry, ResolvedCard, ResolvedDeck};
use agni::riftbound::text_list::parse_text;
use agni::riftbound::{parse_deck, DeckSource, Identifier, ParsedDeck, ParsedEntry, Section};

fn test_catalog() -> StaticCatalog {
    let card = |name: &str, id: &str, kind: CardKind, champion: bool| CatalogCard {
        name: name.into(),
        riftbound_id: id.into(),
        kind,
        champion,
        image_url: Some(format!("https://img.example/{id}.png")),
        ..Default::default()
    };
    StaticCatalog::new(vec![
        card("Vanguard Sentinel", "ogn-201-298", CardKind::Legend, false),
        card("Emberwing Scout", "ogn-007-298", CardKind::Unit, true),
        card(
            "Emberwing Scout (Alternate Art)",
            "ogn-007a-298",
            CardKind::Unit,
            true,
        ),
        card("Gloomvale Trickster", "ogn-101-298", CardKind::Unit, false),
        card(
            "Yorick, Keeper of the 1000 Graves",
            "ogn-118-298",
            CardKind::Unit,
            false,
        ),
        card("Ember Rune", "ogn-042-298", CardKind::Rune, false),
        card("Tempest Rune", "ven-r01", CardKind::Rune, false),
        card(
            "Sunken Causeway",
            "ogn-260-298",
            CardKind::Battlefield,
            false,
        ),
        card("Duskwatch Warden", "ogn-088-298", CardKind::Gear, false),
        card("Sudden Undertow", "ogn-045-298", CardKind::Spell, false),
        card(
            "Marsh Envoy (Signature)",
            "unl-229*-219",
            CardKind::Unit,
            true,
        ),
        card(
            "Lillia - Bashful Bloom",
            "unl-189-219",
            CardKind::Legend,
            false,
        ),
        card(
            "Lillia - Bashful Bloom (Signature)",
            "unl-230*-219",
            CardKind::Legend,
            false,
        ),
        card(
            "Lillia - Bashful Bloom (Overnumbered)",
            "unl-230-219",
            CardKind::Legend,
            false,
        ),
    ])
}



#[test]
fn print_suffixes_fold_away_and_real_parentheses_stay() {
    assert_eq!(
        base_name("Master Yi - Wuju Bladesman (Starter)"),
        "Master Yi - Wuju Bladesman"
    );
    assert_eq!(base_name("Nasus, Ascended (Alternate Art)"), "Nasus, Ascended");
    assert_eq!(
        base_name("Lillia - Bashful Bloom (Overnumbered)"),
        "Lillia - Bashful Bloom"
    );
    assert_eq!(
        base_name("Vi - Piltover Enforcer (Signature)"),
        "Vi - Piltover Enforcer"
    );
    assert_eq!(base_name("Sett - The Boss (Metal)"), "Sett - The Boss");
    assert_eq!(base_name("Jinx - Rebel (Promo)"), "Jinx - Rebel");
    assert_eq!(base_name("Jinx - Rebel (Prerelease)"), "Jinx - Rebel");
    assert_eq!(base_name("Jinx - Rebel (Foil)"), "Jinx - Rebel");
    assert_eq!(base_name("Baron Nashor (Ultimate)"), "Baron Nashor");
    assert_eq!(
        base_name("Ahri - Alluring (Launch Exclusive)"),
        "Ahri - Alluring"
    );
    assert_eq!(base_name("Teemo - Scout (GG EZ)"), "Teemo - Scout (GG EZ)");
    assert_eq!(base_name("Gold // Buff"), "Gold // Buff");
    assert_eq!(base_name("Charm"), "Charm");
    assert_eq!(base_name("(Starter)"), "(Starter)");
}

#[test]
fn aliased_prints_take_their_listed_name() {
    assert_eq!(alias_of("ven-145-166"), Some("Nasus - Curator of the Sands"));
    assert_eq!(alias_of("ven-145a-166"), None);
    assert_eq!(alias_of("ven-sp3-006"), Some("Ahri - Inquisitive"));
    assert_eq!(alias_of("ogn-007-298"), None);
    assert_eq!(
        canonical_name("ven-192-166", "Nasus (Alternate Art)"),
        "Nasus - Curator of the Sands"
    );
    assert_eq!(
        canonical_name("ogn-007-298", "Emberwing Scout (Alternate Art)"),
        "Emberwing Scout"
    );
}

#[test]
fn a_counted_champion_or_legend_line_keeps_its_extra_copies_in_main() {
    let mut catalog = test_catalog();
    let parsed = parse_text(
        "Legend\n2 Vanguard Sentinel\nChampion\n3 Emberwing Scout\nMain Deck\n1 Gloomvale Trickster",
    )
    .unwrap();
    let resolution = resolve(&parsed, &mut catalog).unwrap();
    assert!(resolution.unresolved.is_empty());
    let deck = resolution.deck;
    assert_eq!(deck.legend.unwrap().name, "Vanguard Sentinel");
    assert_eq!(deck.chosen_champion.unwrap().name, "Emberwing Scout");
    let counts: Vec<(String, u32)> = deck
        .main_deck
        .iter()
        .map(|entry| (entry.card.name.clone(), entry.count))
        .collect();
    assert_eq!(
        counts,
        vec![
            ("Vanguard Sentinel".to_string(), 1),
            ("Emberwing Scout".to_string(), 2),
            ("Gloomvale Trickster".to_string(), 1),
        ]
    );
}

#[test]
fn zones_reconstruct_from_card_kinds_without_sections() {
    let mut catalog = test_catalog();
    let parsed = ParsedDeck {
        entries: vec![
            ParsedEntry {
                identifier: Identifier::Name("Vanguard Sentinel".into()),
                count: 1,
                section: None,
            },
            ParsedEntry {
                identifier: Identifier::Name("Ember Rune".into()),
                count: 12,
                section: None,
            },
            ParsedEntry {
                identifier: Identifier::Name("Sunken Causeway".into()),
                count: 1,
                section: None,
            },
            ParsedEntry {
                identifier: Identifier::Name("Emberwing Scout".into()),
                count: 3,
                section: None,
            },
        ],
    };
    let resolution = resolve(&parsed, &mut catalog).unwrap();
    assert!(resolution.unresolved.is_empty());
    let deck = resolution.deck;
    assert_eq!(deck.legend.unwrap().name, "Vanguard Sentinel");
    assert_eq!(deck.runes.len(), 1);
    assert_eq!(deck.runes[0].count, 12);
    assert_eq!(deck.battlefields.len(), 1);
    assert_eq!(deck.main_deck.len(), 1);
    assert_eq!(deck.main_deck[0].card.riftbound_id, "ogn-007-298");
}

#[test]
fn explicit_sections_win_over_kinds() {
    let mut catalog = test_catalog();
    let parsed = ParsedDeck {
        entries: vec![ParsedEntry {
            identifier: Identifier::Name("Sudden Undertow".into()),
            count: 2,
            section: Some(Section::Sideboard),
        }],
    };
    let resolution = resolve(&parsed, &mut catalog).unwrap();
    assert_eq!(resolution.deck.sideboard.len(), 1);
    assert!(resolution.deck.main_deck.is_empty());
}

#[test]
fn a_deck_code_resolves_with_champion_and_zones() {
    let mut catalog = test_catalog();
    let code = encode(&DecodedDeck {
        main: vec![
            CodeEntry {
                code: CardCode::parse("OGN-201").unwrap(),
                count: 1,
            },
            CodeEntry {
                code: CardCode::parse("OGN-007").unwrap(),
                count: 3,
            },
            CodeEntry {
                code: CardCode::parse("OGN-042").unwrap(),
                count: 12,
            },
            CodeEntry {
                code: CardCode::parse("OGN-260").unwrap(),
                count: 1,
            },
        ],
        sideboard: vec![CodeEntry {
            code: CardCode::parse("OGN-088").unwrap(),
            count: 2,
        }],
        champion: Some(CardCode::parse("OGN-007").unwrap()),
    })
    .unwrap();
    let parsed = parse_deck(&DeckSource::Code(code)).unwrap();
    let resolution = resolve(&parsed, &mut catalog).unwrap();
    let deck = resolution.deck;
    assert_eq!(deck.legend.unwrap().name, "Vanguard Sentinel");
    assert_eq!(deck.chosen_champion.unwrap().name, "Emberwing Scout");
    assert_eq!(deck.runes[0].count, 12);
    assert_eq!(deck.battlefields[0].card.name, "Sunken Causeway");
    assert_eq!(deck.sideboard[0].count, 2);
    assert_eq!(deck.main_deck.len(), 1);
    assert_eq!(
        deck.main_deck[0].count, 2,
        "the code's main list holds the champion copy; the pointer takes it out"
    );
}

#[test]
fn unresolved_codes_are_described_as_codes() {
    let mut catalog = test_catalog();
    let parsed = ParsedDeck {
        entries: vec![ParsedEntry {
            identifier: Identifier::Code(CardCode::parse("OGN-999").unwrap()),
            count: 2,
            section: None,
        }],
    };
    let resolution = resolve(&parsed, &mut catalog).unwrap();
    assert_eq!(resolution.unresolved.len(), 1);
    assert_eq!(resolution.unresolved[0].identifier, "OGN-999");
}

fn resolved(name: &str, id: &str) -> ResolvedCard {
    ResolvedCard {
        name: name.into(),
        riftbound_id: id.into(),
        ..Default::default()
    }
}

#[test]
fn an_inferred_champion_takes_one_copy_of_the_first_fitting_card() {
    let mut deck = ResolvedDeck {
        legend: Some(resolved("Lillia - Bashful Bloom", "unl-189-219")),
        main_deck: vec![
            DeckEntry {
                card: resolved("Gloomvale Trickster", "ogn-101-298"),
                count: 2,
            },
            DeckEntry {
                card: resolved("Lillia - Fae Fawn", "unl-082-219"),
                count: 3,
            },
            DeckEntry {
                card: resolved("Lillia - Fae Fawn", "unl-082a-219"),
                count: 1,
            },
        ],
        ..Default::default()
    };
    let lillia = |card: &ResolvedCard| card.name.starts_with("Lillia");
    assert!(infer_champion(&mut deck, lillia));
    assert_eq!(deck.chosen_champion.as_ref().unwrap().riftbound_id, "unl-082-219");
    assert_eq!(deck.main_deck[1].count, 2);
    assert!(!infer_champion(&mut deck, lillia), "a chosen champion stays");
    let mut single = ResolvedDeck {
        legend: Some(resolved("Lillia - Bashful Bloom", "unl-189-219")),
        main_deck: vec![DeckEntry {
            card: resolved("Lillia - Fae Fawn", "unl-082-219"),
            count: 1,
        }],
        ..Default::default()
    };
    assert!(infer_champion(&mut single, lillia));
    assert!(single.main_deck.is_empty());
    let mut without_legend = ResolvedDeck {
        main_deck: vec![DeckEntry {
            card: resolved("Lillia - Fae Fawn", "unl-082-219"),
            count: 1,
        }],
        ..Default::default()
    };
    assert!(!infer_champion(&mut without_legend, lillia));
    assert_eq!(without_legend.main_deck.len(), 1);
}
