use agni::deck::text_list::{parse_text, split_count, unwrap_header, TextError, TextVocabulary};
use agni::deck::{Game, ParsedDeck};

#[derive(Debug, Clone, Copy, PartialEq, Eq, Default)]
struct TestGame;

#[derive(Debug, Clone, Copy, PartialEq, Eq)]
enum Section {
    Main,
    Side,
}

#[derive(Debug, Clone, PartialEq, Eq, Default)]
struct Deck {
    main: Vec<(String, u32)>,
    side: Vec<(String, u32)>,
}

impl Game for TestGame {
    type Section = Section;
    type Identifier = String;
    type Card = String;
    type Deck = Deck;

    fn describe(identifier: &String) -> String {
        identifier.clone()
    }

    fn cache_key(identifier: &String) -> String {
        agni::naming::normalize_name(identifier)
    }

    fn place(deck: &mut Deck, section: Option<Section>, card: String, count: u32) {
        let zone = match section {
            Some(Section::Side) => &mut deck.side,
            _ => &mut deck.main,
        };
        zone.push((card, count));
    }
}

impl TextVocabulary for TestGame {
    type Game = TestGame;

    fn section(header: &str) -> Option<Section> {
        match header {
            "deck" | "main" | "main deck" => Some(Section::Main),
            "side" | "sideboard" => Some(Section::Side),
            _ => None,
        }
    }

    fn identifier(name: &str) -> String {
        name.to_string()
    }

    fn inline_section(_line: &str) -> Option<(String, Section)> {
        None
    }

    fn skip(_section: Section) -> bool {
        false
    }

    fn clean_name(name: &str) -> String {
        name.to_string()
    }
}

fn parse(input: &str) -> Result<ParsedDeck<TestGame>, TextError> {
    parse_text::<TestGame>(input)
}

#[test]
fn a_bare_list_parses_counts_and_names() {
    let deck = parse("3 Emberwing Scout\n2x Gloomvale Trickster\nLone Wanderer\n").unwrap();
    assert_eq!(deck.entries.len(), 3);
    assert_eq!(deck.entries[0].count, 3);
    assert_eq!(deck.entries[0].identifier, "Emberwing Scout");
    assert_eq!(deck.entries[1].count, 2);
    assert_eq!(deck.entries[1].identifier, "Gloomvale Trickster");
    assert_eq!(deck.entries[2].count, 1);
    assert_eq!(deck.entries[2].identifier, "Lone Wanderer");
    assert!(deck.entries.iter().all(|entry| entry.section.is_none()));
}

#[test]
fn names_keep_their_commas_and_inner_numbers() {
    let deck = parse("4 Yorick, Keeper of the 1000 Graves\n").unwrap();
    assert_eq!(deck.entries[0].count, 4);
    assert_eq!(
        deck.entries[0].identifier,
        "Yorick, Keeper of the 1000 Graves"
    );
}

#[test]
fn section_headers_assign_zones_and_shed_their_counts() {
    let deck = parse("Main Deck (40)\n3 Scout\nSideboard:\n2 Warden\nDECK\n1 Rune\n").unwrap();
    let sections: Vec<Option<Section>> = deck.entries.iter().map(|entry| entry.section).collect();
    assert_eq!(
        sections,
        vec![Some(Section::Main), Some(Section::Side), Some(Section::Main)]
    );
}

#[test]
fn a_card_named_like_a_header_still_parses_as_a_card() {
    let deck = parse("2 Sideboard of Old\n").unwrap();
    assert_eq!(deck.entries[0].identifier, "Sideboard of Old");
    assert_eq!(deck.entries[0].section, None);
}

#[test]
fn comments_and_blank_lines_are_skipped() {
    let deck = parse("\n# a comment\n// another\n3 Emberwing Scout\n\n").unwrap();
    assert_eq!(deck.entries.len(), 1);
}

#[test]
fn errors_carry_line_numbers() {
    assert_eq!(parse(""), Err(TextError::Empty));
    assert_eq!(parse("3 Ok\n0 Broken\n"), Err(TextError::ZeroCount(2)));
    assert_eq!(parse("3\n"), Err(TextError::BlankName(1)));
    assert_eq!(parse("3x\n"), Err(TextError::BlankName(1)));
}

#[test]
fn every_count_spelling_splits_the_same_way() {
    assert_eq!(split_count("3 Scout"), (Some(3), "Scout".to_string()));
    assert_eq!(split_count("3x Scout"), (Some(3), "Scout".to_string()));
    assert_eq!(split_count("3 x Scout"), (Some(3), "Scout".to_string()));
    assert_eq!(split_count("Scout x3"), (Some(3), "Scout".to_string()));
    assert_eq!(split_count("Scout x 3"), (Some(3), "Scout".to_string()));
    assert_eq!(split_count("Scout 3"), (None, "Scout 3".to_string()));
    assert_eq!(split_count("Scout"), (None, "Scout".to_string()));
}

#[test]
fn headers_unwrap_from_tildes_and_hashes() {
    assert_eq!(unwrap_header("  ~~Legend~~ "), "Legend");
    assert_eq!(unwrap_header("### Runes"), "Runes");
    assert_eq!(unwrap_header("# Title"), "# Title");
    assert_eq!(unwrap_header("3 Scout"), "3 Scout");
}

#[test]
fn error_messages_name_the_line() {
    assert_eq!(TextError::Empty.message(), "the deck list is empty");
    assert_eq!(
        TextError::BlankName(12).message(),
        "line 12 has a count but no card name"
    );
    assert_eq!(TextError::ZeroCount(3).message(), "line 3 asks for zero copies");
}
