use agni::deck::catalog::{CardLookup, LookupError};
use agni::deck::resolve::{resolve, NO_MATCH};
use agni::deck::text_list::{parse_text, TextVocabulary};
use agni::deck::{Game, ParsedDeck, ParsedEntry};

#[derive(Debug, Clone, Copy, PartialEq, Eq, Default)]
struct TestGame;

#[derive(Debug, Clone, Copy, PartialEq, Eq)]
enum Section {
    Main,
    Side,
}

#[derive(Debug, Clone, PartialEq, Eq)]
struct Card {
    name: String,
    art: bool,
}

#[derive(Debug, Clone, PartialEq, Eq)]
struct Entry {
    card: Card,
    count: u32,
}

#[derive(Debug, Clone, PartialEq, Eq, Default)]
struct Deck {
    main: Vec<Entry>,
    side: Vec<Entry>,
}

fn push(zone: &mut Vec<Entry>, card: Card, count: u32) {
    if let Some(entry) = zone.iter_mut().find(|entry| entry.card == card) {
        entry.count += count;
    } else {
        zone.push(Entry { card, count });
    }
}

impl Game for TestGame {
    type Section = Section;
    type Identifier = String;
    type Card = Card;
    type Deck = Deck;

    fn describe(identifier: &String) -> String {
        identifier.clone()
    }

    fn cache_key(identifier: &String) -> String {
        agni::naming::normalize_name(identifier)
    }

    fn place(deck: &mut Deck, section: Option<Section>, card: Card, count: u32) {
        match section {
            Some(Section::Side) => push(&mut deck.side, card, count),
            Some(Section::Main) | None => push(&mut deck.main, card, count),
        }
    }
}

impl TextVocabulary for TestGame {
    type Game = TestGame;

    fn section(header: &str) -> Option<Section> {
        match header {
            "deck" | "main" | "main deck" => Some(Section::Main),
            "side" | "sideboard" => Some(Section::Side),
            _ => None,
        }
    }

    fn identifier(name: &str) -> String {
        name.to_string()
    }

    fn inline_section(_line: &str) -> Option<(String, Section)> {
        None
    }

    fn skip(_section: Section) -> bool {
        false
    }

    fn clean_name(name: &str) -> String {
        name.to_string()
    }
}

fn card(name: &str, art: bool) -> Card {
    Card {
        name: name.into(),
        art,
    }
}

struct Fixture;

impl CardLookup<TestGame> for Fixture {
    fn find(&mut self, name: &String) -> Result<Option<Card>, LookupError> {
        Ok(match name.as_str() {
            "Scout" => Some(card("Scout", true)),
            "Warden" => Some(card("Warden", false)),
            "Broken" => return Err(LookupError("the wire fell over".into())),
            _ => None,
        })
    }
}

#[test]
fn sections_land_in_their_zones_and_repeats_merge() {
    let parsed = parse_text::<TestGame>("3 Scout\nSideboard\n2 Warden\nDeck\n1 Scout\n").unwrap();
    let resolution = resolve(&parsed, &mut Fixture).unwrap();
    assert!(resolution.unresolved.is_empty());
    assert_eq!(resolution.deck.main.len(), 1);
    assert_eq!(resolution.deck.main[0].count, 4);
    assert_eq!(resolution.deck.side.len(), 1);
    assert_eq!(resolution.deck.side[0].card.name, "Warden");
    assert_eq!(resolution.deck.side[0].count, 2);
}

#[test]
fn unknown_cards_land_in_unresolved_with_a_reason() {
    let parsed = ParsedDeck::<TestGame> {
        entries: vec![
            ParsedEntry {
                identifier: "Completely Unknown".into(),
                count: 2,
                section: None,
            },
            ParsedEntry {
                identifier: "Scout".into(),
                count: 1,
                section: Some(Section::Main),
            },
        ],
    };
    let resolution = resolve(&parsed, &mut Fixture).unwrap();
    assert_eq!(resolution.unresolved.len(), 1);
    assert_eq!(resolution.unresolved[0].identifier, "Completely Unknown");
    assert_eq!(resolution.unresolved[0].reason, NO_MATCH);
    assert!(!resolution.unresolved[0].lookup_failed());
    assert!(resolution.first_failure().is_none());
    assert_eq!(resolution.deck.main.len(), 1);
}

#[test]
fn a_lookup_failure_names_the_card_and_the_rest_still_resolves() {
    let parsed = parse_text::<TestGame>("1 Scout\n1 Broken\n2 Warden\n").unwrap();
    let resolution = resolve(&parsed, &mut Fixture).unwrap();
    assert_eq!(resolution.deck.main.len(), 2);
    assert_eq!(resolution.unresolved.len(), 1);
    assert_eq!(resolution.unresolved[0].identifier, "Broken");
    assert_eq!(
        resolution.unresolved[0].reason,
        "card lookup failed: the wire fell over"
    );
    assert!(resolution.unresolved[0].lookup_failed());
    assert_eq!(resolution.first_failure().unwrap().identifier, "Broken");
}

#[test]
fn repeated_lookup_failures_stop_asking_and_say_so() {
    let parsed =
        parse_text::<TestGame>("1 Broken\n1 Broken\n1 Broken\n1 Scout\n1 Nobody\n").unwrap();
    let resolution = resolve(&parsed, &mut Fixture).unwrap();
    assert!(resolution.deck.main.is_empty());
    assert_eq!(resolution.unresolved.len(), 5);
    for entry in &resolution.unresolved[..3] {
        assert_eq!(entry.reason, "card lookup failed: the wire fell over");
    }
    assert_eq!(resolution.unresolved[3].identifier, "Scout");
    assert_eq!(
        resolution.unresolved[3].reason,
        "not looked up: 3 lookups in a row failed, the last with: card lookup failed: the wire fell over"
    );
    assert_eq!(resolution.unresolved[4].identifier, "Nobody");
    assert!(resolution.unresolved[4].lookup_failed());
}

#[test]
fn a_success_between_failures_resets_the_fuse() {
    let parsed =
        parse_text::<TestGame>("1 Broken\n1 Broken\n1 Scout\n1 Broken\n1 Broken\n1 Warden\n")
            .unwrap();
    let resolution = resolve(&parsed, &mut Fixture).unwrap();
    assert_eq!(resolution.deck.main.len(), 2);
    assert_eq!(resolution.unresolved.len(), 4);
    assert!(resolution
        .unresolved
        .iter()
        .all(|entry| entry.reason == "card lookup failed: the wire fell over"));
}

#[test]
fn after_the_fuse_blows_no_lookup_is_made() {
    struct Counting {
        calls: usize,
    }
    impl CardLookup<TestGame> for Counting {
        fn find(&mut self, _name: &String) -> Result<Option<Card>, LookupError> {
            self.calls += 1;
            Err(LookupError("offline".into()))
        }
    }
    let parsed = parse_text::<TestGame>("1 A\n1 B\n1 C\n1 D\n1 E\n1 F\n").unwrap();
    let mut lookup = Counting { calls: 0 };
    let resolution = resolve(&parsed, &mut lookup).unwrap();
    assert_eq!(lookup.calls, 3);
    assert_eq!(resolution.unresolved.len(), 6);
}
