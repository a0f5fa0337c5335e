use agni::abysswalker::CardName;
use agni::mtg::resolved::{DeckEntry, MtgDeck, ResolvedCard, ResolvedDeck};
use agni::mtg::ingest::{catalog_card as mtg_catalog_card, catalog_of, Manifest, ManifestCard};
use agni::mtg::scryfall_named::{card_of, image_url, ImageUris, NamedCard, NamedFace};
use agni::deck::catalog::{CardLookup as Lookup, LookupError};
use agni::deck::text_list::TextError;
use agni::mtg::catalog::{CardLookup, Layered, MtgCard, StaticCatalog};
use agni::mtg::resolve::{is_empty, resolve};
use agni::mtg::text_list::{parse_text, strip_set_suffix};
use agni::mtg::{Mtg, Section};
use agni::naming::normalize_name;

fn test_catalog() -> StaticCatalog {
    let card = |name: &str, art: bool| MtgCard {
        name: name.into(),
        image_url: if art {
            Some(format!("https://img.example/{}.jpg", normalize_name(name)))
        } else {
            None
        },
    };
    StaticCatalog::new(vec![
        card("Thornspire Adept", true),
        card("Mistfen Causeway", true),
        card("Serelith, Tidebound Oracle", true),
        card("Cinderveil Ward", false),
        card("Krellik, Keeper of the 1000 Embers", true),
    ])
}

#[test]
fn a_legendary_first_name_resolves_through_the_comma() {
    let mut catalog = test_catalog();
    assert_eq!(
        catalog.by_name("Serelith").unwrap().unwrap().name,
        "Serelith, Tidebound Oracle"
    );
    assert_eq!(
        catalog
            .by_name("KRELLIK KEEPER OF THE 1000 EMBERS")
            .unwrap()
            .unwrap()
            .name,
        "Krellik, Keeper of the 1000 Embers"
    );
    assert!(catalog.by_name("Unknown Card").unwrap().is_none());
}

struct Remote {
    calls: usize,
}

impl Lookup<Mtg> for Remote {
    fn find(&mut self, name: &String) -> Result<Option<MtgCard>, LookupError> {
        self.calls += 1;
        Ok(Some(MtgCard {
            name: name.clone(),
            image_url: Some("https://cards.example/remote.jpg".into()),
        }))
    }
}

#[test]
fn the_local_catalog_answers_first_and_the_remote_covers_its_misses() {
    let mut layered = Layered {
        first: test_catalog(),
        second: Remote { calls: 0 },
    };
    assert_eq!(
        layered
            .by_name("Thornspire Adept")
            .unwrap()
            .unwrap()
            .image_url
            .as_deref(),
        Some("https://img.example/thornspire adept.jpg")
    );
    assert_eq!(layered.second.calls, 0);
    assert_eq!(
        layered
            .by_name("Cinderveil Ward")
            .unwrap()
            .unwrap()
            .image_url
            .as_deref(),
        Some("https://cards.example/remote.jpg")
    );
    assert_eq!(layered.second.calls, 1);
}

#[test]
fn arena_set_and_collector_suffixes_strip_away() {
    let deck = parse_text(
        "4 Thornspire Adept (ZNR) 194\n1 Serelith, Tidebound Oracle (C21) 42a\n2 Mistfen Causeway (DMU) 245 *F*\n",
    )
    .unwrap();
    assert_eq!(deck.entries[0].identifier, "Thornspire Adept");
    assert_eq!(deck.entries[1].identifier, "Serelith, Tidebound Oracle");
    assert_eq!(deck.entries[2].identifier, "Mistfen Causeway");
}

#[test]
fn parenthetical_card_names_survive() {
    let deck = parse_text("1 Grimwood Fiend (Really Enormous)\n").unwrap();
    assert_eq!(
        deck.entries[0].identifier,
        "Grimwood Fiend (Really Enormous)"
    );
}

#[test]
fn sb_prefixed_lines_join_the_sideboard() {
    let deck = parse_text("4 Thornspire Adept\nSB: 2 Cinderveil Ward\n").unwrap();
    assert_eq!(deck.entries[0].section, None);
    assert_eq!(deck.entries[1].section, Some(Section::Sideboard));
    assert_eq!(deck.entries[1].identifier, "Cinderveil Ward");
    assert_eq!(deck.entries[1].count, 2);
    assert_eq!(parse_text("SB: 3\n"), Err(TextError::BlankName(1)));
}

#[test]
fn about_blocks_and_comments_are_skipped() {
    let deck =
        parse_text("About\nName Big Red\n\n# comment\n// another\nDeck\n4 Thornspire Adept\n")
            .unwrap();
    assert_eq!(deck.entries.len(), 1);
    assert_eq!(deck.entries[0].identifier, "Thornspire Adept");
}

#[test]
fn set_suffixes_need_a_set_code_and_a_collector_number() {
    assert_eq!(strip_set_suffix("Thornspire Adept (ZNR) 194"), "Thornspire Adept");
    assert_eq!(strip_set_suffix("Thornspire Adept (ZNR)"), "Thornspire Adept");
    assert_eq!(strip_set_suffix("Thornspire Adept (Z) 194"), "Thornspire Adept (Z) 194");
    assert_eq!(strip_set_suffix("Thornspire Adept (ZNR) 19-4"), "Thornspire Adept (ZNR) 19-4");
    assert_eq!(strip_set_suffix("Thornspire Adept *F*  "), "Thornspire Adept");
    assert_eq!(strip_set_suffix("Thornspire Adept (ZNR) ★"), "Thornspire Adept");
}

#[test]
fn sections_land_in_their_zones() {
    let deck = parse_text(
        "Commander\n1 Serelith, Tidebound Oracle\nDeck\n4 Thornspire Adept\n2 Mistfen Causeway\nSideboard\n3 Cinderveil Ward\n",
    )
    .unwrap();
    let resolution = resolve(&deck, &mut test_catalog()).unwrap();
    assert!(resolution.unresolved.is_empty());
    let deck = resolution.deck;
    assert_eq!(deck.commander.unwrap().name, "Serelith, Tidebound Oracle");
    assert_eq!(deck.main_deck.len(), 2);
    assert_eq!(deck.main_deck[0].count, 4);
    assert_eq!(deck.sideboard.len(), 1);
    assert_eq!(deck.sideboard[0].count, 3);
}

#[test]
fn a_second_commander_falls_into_the_main_deck() {
    let deck =
        parse_text("Commander\n1 Serelith, Tidebound Oracle\n1 Thornspire Adept\n").unwrap();
    let resolution = resolve(&deck, &mut test_catalog()).unwrap();
    assert_eq!(resolution.deck.main_deck.len(), 1);
    assert_eq!(resolution.deck.main_deck[0].card.name, "Thornspire Adept");
}

#[test]
fn a_bare_list_is_all_main_deck() {
    let deck = parse_text("4 Thornspire Adept\n4 Thornspire Adept\n").unwrap();
    let resolution = resolve(&deck, &mut test_catalog()).unwrap();
    assert_eq!(resolution.deck.main_deck.len(), 1);
    assert_eq!(resolution.deck.main_deck[0].count, 8);
    assert!(resolution.deck.commander.is_none());
    assert!(!is_empty(&resolution));
}

#[test]
fn a_deck_that_resolves_nothing_reads_as_empty() {
    let deck = parse_text("2 Completely Unknown\n").unwrap();
    let resolution = resolve(&deck, &mut test_catalog()).unwrap();
    assert_eq!(resolution.unresolved[0].identifier, "Completely Unknown");
    assert!(is_empty(&resolution));
}

fn named(name: &str, own: Option<&str>, faces: Option<Vec<Option<&str>>>) -> NamedCard {
    let uris = |normal: &str| ImageUris {
        normal: normal.to_string(),
    };
    NamedCard {
        name: name.to_string(),
        image_uris: own.map(uris),
        card_faces: faces.map(|faces| {
            faces
                .into_iter()
                .map(|face| NamedFace {
                    image_uris: face.map(uris),
                })
                .collect()
        }),
    }
}

#[test]
fn a_single_faced_card_reads_its_normal_image() {
    let card = named("Thornspire Adept", Some("https://cards.example/adept.jpg"), None);
    assert_eq!(
        image_url(&card).as_deref(),
        Some("https://cards.example/adept.jpg")
    );
    assert_eq!(card_of(&card).name, "Thornspire Adept");
}

#[test]
fn a_double_faced_card_falls_back_to_its_front_face() {
    let card = named(
        "Mistfen Causeway // Mistfen Deeps",
        None,
        Some(vec![
            Some("https://cards.example/front.jpg"),
            Some("https://cards.example/back.jpg"),
        ]),
    );
    assert_eq!(
        image_url(&card).as_deref(),
        Some("https://cards.example/front.jpg")
    );
}

#[test]
fn an_artless_card_resolves_to_no_url() {
    let card = named("Cinderveil Ward", None, None);
    assert!(image_url(&card).is_none());
    assert!(card_of(&card).image_url.is_none());
    let faceless = named("Cinderveil Ward", None, Some(Vec::new()));
    assert!(image_url(&faceless).is_none());
}

#[test]
fn stored_cards_give_catalog_records_with_art_only_when_linked() {
    let stored = |name: &str, link: &str| ManifestCard {
        name: name.into(),
        mana_cost: "{1}{G}".into(),
        type_line: "Creature".into(),
        oracle_text: String::new(),
        image: "blob".into(),
        image_url: link.into(),
    };
    let with_art = mtg_catalog_card(&stored("Thornspire Adept", "https://cards.example/a.jpg"));
    assert_eq!(with_art.image_url.as_deref(), Some("https://cards.example/a.jpg"));
    assert!(mtg_catalog_card(&stored("Cinderveil Ward", "")).image_url.is_none());
    let manifest = Manifest {
        set: "mtg".into(),
        cards: vec![stored("Thornspire Adept", ""), stored("Cinderveil Ward", "x")],
    };
    let mut catalog = catalog_of(&manifest);
    assert_eq!(catalog.len(), 2);
    assert_eq!(
        catalog.by_name("cinderveil ward").unwrap().unwrap().image_url.as_deref(),
        Some("x")
    );
}

#[test]
fn a_deck_holds_its_zones() {
    let deck = MtgDeck {
        main_deck: vec![CardName("Thornspire Adept".into()); 4],
        sideboard: vec![CardName("Cinderveil Ward".into())],
        commander: None,
    };
    assert_eq!(deck.main_deck.len(), 4);
    assert_eq!(deck.sideboard.len(), 1);
    assert!(deck.commander.is_none());
}

#[test]
fn a_resolved_deck_flattens_to_names() {
    let card = |name: &str| ResolvedCard {
        name: name.into(),
        image_url: Some(format!("https://img.example/{name}.jpg")),
    };
    let deck = ResolvedDeck {
        commander: Some(card("Serelith, Tidebound Oracle")),
        main_deck: vec![
            DeckEntry {
                card: card("Thornspire Adept"),
                count: 4,
            },
            DeckEntry {
                card: card("Mistfen Causeway"),
                count: 2,
            },
        ],
        sideboard: vec![DeckEntry {
            card: card("Cinderveil Ward"),
            count: 3,
        }],
    };
    let names = deck.names();
    assert_eq!(
        names.commander,
        Some(CardName("Serelith, Tidebound Oracle".into()))
    );
    assert_eq!(names.main_deck.len(), 6);
    assert_eq!(names.main_deck[0], CardName("Thornspire Adept".into()));
    assert_eq!(names.main_deck[4], CardName("Mistfen Causeway".into()));
    assert_eq!(names.sideboard.len(), 3);
}
