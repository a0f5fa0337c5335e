use agni::deck::catalog::{unique_prefix, Cached, CardLookup, LookupError, NameIndex};
use agni::deck::Game;
use std::collections::BTreeMap;

#[derive(Debug, Clone, Copy, PartialEq, Eq, Default)]
struct TestGame;

#[derive(Debug, Clone, PartialEq, Eq)]
struct Card {
    name: String,
    art: bool,
}

fn card(name: &str, art: bool) -> Card {
    Card {
        name: name.into(),
        art,
    }
}

impl Game for TestGame {
    type Section = u8;
    type Identifier = String;
    type Card = Card;
    type Deck = Vec<(String, u32)>;

    fn describe(identifier: &String) -> String {
        identifier.clone()
    }

    fn cache_key(identifier: &String) -> String {
        agni::naming::normalize_name(identifier)
    }

    fn place(deck: &mut Vec<(String, u32)>, _section: Option<u8>, card: Card, count: u32) {
        deck.push((card.name, count));
    }
}

fn index() -> NameIndex<Card> {
    NameIndex::new(
        vec![
            card("Emberwing Scout", true),
            card("Emberwing Scout (Alternate Art)", true),
            card("Yorick, Keeper of the 1000 Graves", true),
            card("Ember Rune", false),
        ],
        |card: &Card| card.name.as_str(),
    )
}

impl CardLookup<TestGame> for NameIndex<Card> {
    fn find(&mut self, name: &String) -> Result<Option<Card>, LookupError> {
        Ok(NameIndex::find(self, name).cloned())
    }
}

fn keyed<V: Clone>(map: &BTreeMap<String, V>) -> Vec<(String, V)> {
    map.iter().map(|(k, v)| (k.clone(), v.clone())).collect()
}

#[test]
fn names_match_case_and_punctuation_insensitively() {
    let index = index();
    assert_eq!(
        index.find("emberwing  SCOUT!").unwrap().name,
        "Emberwing Scout"
    );
    assert_eq!(
        index.find("YORICK KEEPER OF THE 1000 GRAVES").unwrap().name,
        "Yorick, Keeper of the 1000 Graves"
    );
    assert!(index.find("Unknown Card").is_none());
    assert_eq!(index.len(), 4);
    assert!(!index.is_empty());
}

#[test]
fn a_unique_prefix_resolves_but_an_ambiguous_one_does_not() {
    let index = index();
    assert_eq!(
        index.find("Yorick").unwrap().name,
        "Yorick, Keeper of the 1000 Graves"
    );
    assert_eq!(index.find("Ember").unwrap().name, "Ember Rune");
    assert!(index.find("Emberwing").is_none());
}

#[test]
fn prefixes_only_match_at_a_separator() {
    let mut ids = BTreeMap::new();
    ids.insert("ogn-007-298".to_string(), 1);
    ids.insert("ogn-007a-298".to_string(), 2);
    ids.insert("ven-r01".to_string(), 3);
    let ids = keyed(&ids);
    assert_eq!(unique_prefix(&ids, "ogn-007", '-'), Some(&1));
    assert_eq!(unique_prefix(&ids, "ven-r01", '-'), Some(&3));
    assert_eq!(unique_prefix(&ids, "ogn", '-'), None);
    assert_eq!(unique_prefix(&ids, "ogn-00", '-'), None);
}

#[test]
fn a_variant_sorting_before_the_separator_does_not_hide_the_base_printing() {
    let mut ids = BTreeMap::new();
    ids.insert("unl-230*-219".to_string(), "signature");
    ids.insert("unl-230-219".to_string(), "base");
    ids.insert("unl-230a-219".to_string(), "alternate");
    let ids = keyed(&ids);
    assert_eq!(unique_prefix(&ids, "unl-230", '-'), Some(&"base"));
    assert_eq!(unique_prefix(&ids, "unl-230*", '-'), Some(&"signature"));
    assert_eq!(unique_prefix(&ids, "unl-230a", '-'), Some(&"alternate"));
    assert_eq!(unique_prefix(&ids, "unl-23", '-'), None);
}

#[test]
fn the_cache_serves_repeats_without_asking_again() {
    struct Counting {
        inner: NameIndex<Card>,
        calls: usize,
    }
    impl CardLookup<TestGame> for Counting {
        fn find(&mut self, name: &String) -> Result<Option<Card>, LookupError> {
            self.calls += 1;
            CardLookup::find(&mut self.inner, name)
        }
    }
    let mut cached: Cached<TestGame, Counting> = Cached::new(Counting {
        inner: index(),
        calls: 0,
    });
    for _ in 0..3 {
        assert!(cached.find(&"Ember Rune".to_string()).unwrap().is_some());
        assert!(cached.find(&"ember  RUNE!".to_string()).unwrap().is_some());
        assert!(cached.find(&"Nobody".to_string()).unwrap().is_none());
    }
    assert_eq!(cached.inner().calls, 2);
}

#[test]
fn a_failed_lookup_is_not_remembered() {
    struct Flaky {
        calls: usize,
    }
    impl CardLookup<TestGame> for Flaky {
        fn find(&mut self, _name: &String) -> Result<Option<Card>, LookupError> {
            self.calls += 1;
            Err(LookupError("down".into()))
        }
    }
    let mut cached: Cached<TestGame, Flaky> = Cached::new(Flaky { calls: 0 });
    for _ in 0..2 {
        assert_eq!(
            cached.find(&"Scout".to_string()),
            Err(LookupError("down".into()))
        );
    }
    assert_eq!(cached.inner().calls, 2);
    assert_eq!(LookupError("down".into()).message(), "card lookup failed: down");
}
