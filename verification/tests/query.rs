use agni::art::USER_AGENT;
use agni::deck::catalog::{CardLookup, LookupError};
use agni::riftbound::card_code::CardCode;
use agni::riftbound::catalog::{CardKind, CatalogCard, StaticCatalog};
use agni::riftbound::deck_code::{encode, CodeEntry, DecodedDeck};
use agni::riftbound::link::{Site, ALLOWED_HOSTS};
use agni::riftbound::query::{
    from_page, page_code_deck, resolve_query_deck, DeckQuery, Fetch, ResolvedQuery, FETCH_ACCEPT,
    FETCH_USER_AGENT, NO_CARDS, OFF_SITE,
};
use agni::riftbound::{Identifier, ParseError, Riftbound};
use std::collections::BTreeMap;

fn test_catalog() -> StaticCatalog {
    let card = |name: &str, id: &str, kind: CardKind, champion: bool| CatalogCard {
        name: name.into(),
        riftbound_id: id.into(),
        kind,
        champion,
        ..Default::default()
    };
    StaticCatalog::new(vec![
        card("Vanguard Sentinel", "ogn-201-298", CardKind::Legend, false),
        card("Emberwing Scout", "ogn-007-298", CardKind::Unit, true),
        card("Ember Rune", "ogn-042-298", CardKind::Rune, false),
        card("Sunken Causeway", "ogn-260-298", CardKind::Battlefield, false),
        card("Duskwatch Warden", "ogn-088-298", CardKind::Gear, false),
    ])
}

struct Flaky {
    inner: StaticCatalog,
    broken: Vec<Identifier>,
}

impl CardLookup<Riftbound> for Flaky {
    fn find(&mut self, identifier: &Identifier) -> Result<Option<CatalogCard>, LookupError> {
        if self.broken.contains(identifier) {
            return Err(LookupError("the fetch failed: timeout".into()));
        }
        self.inner.find(identifier)
    }
}

struct FixtureFetch {
    pages: BTreeMap<String, String>,
    requests: Vec<String>,
}

impl Fetch for FixtureFetch {
    fn get(&mut self, url: &str) -> Result<String, String> {
        self.requests.push(url.to_string());
        self.pages
            .get(url)
            .cloned()
            .ok_or_else(|| "the fetch failed: no route".to_string())
    }
}

fn fixture(url: &str, body: &str) -> FixtureFetch {
    let mut pages = BTreeMap::new();
    pages.insert(url.to_string(), body.to_string());
    FixtureFetch {
        pages,
        requests: Vec::new(),
    }
}

fn sample_code() -> String {
    encode(&DecodedDeck {
        main: vec![
            CodeEntry {
                code: CardCode::parse("OGN-201").unwrap(),
                count: 1,
            },
            CodeEntry {
                code: CardCode::parse("OGN-007").unwrap(),
                count: 3,
            },
            CodeEntry {
                code: CardCode::parse("OGN-042").unwrap(),
                count: 12,
            },
        ],
        sideboard: Vec::new(),
        champion: Some(CardCode::parse("OGN-007").unwrap()),
    })
    .unwrap()
}

fn resolved(reply: Result<ResolvedQuery, agni::riftbound::query::Refusal>) -> ResolvedQuery {
    reply.unwrap_or_else(|refusal| panic!("{}: {}", refusal.status, refusal.message))
}

#[test]
fn the_fetch_identifies_itself_honestly_and_accepts_anything() {
    assert_eq!(FETCH_USER_AGENT, USER_AGENT);
    assert!(FETCH_USER_AGENT.starts_with("agni-importers/"));
    assert!(!FETCH_USER_AGENT.contains("Mozilla"));
    assert_eq!(FETCH_ACCEPT, "*/*");
}

#[test]
fn the_refusal_names_every_allowed_host() {
    assert_eq!(
        OFF_SITE,
        format!("deck links are only fetched from {}", ALLOWED_HOSTS.join(", "))
    );
}

#[test]
fn a_code_query_resolves_without_fetching() {
    let mut fetch = fixture("unused", "");
    let query = resolved(resolve_query_deck(
        &DeckQuery::Code(format!("  {}  ", sample_code())),
        &mut fetch,
        &mut test_catalog(),
    ));
    assert_eq!(query.source_kind, "code");
    assert_eq!(query.source_value, sample_code());
    let deck = &query.resolution.deck;
    assert_eq!(deck.legend.as_ref().unwrap().name, "Vanguard Sentinel");
    assert_eq!(deck.chosen_champion.as_ref().unwrap().riftbound_id, "ogn-007-298");
    assert_eq!(deck.runes[0].count, 12);
    assert!(fetch.requests.is_empty());
}

#[test]
fn a_piltover_link_reads_its_code_and_other_links_are_fetched() {
    let code = sample_code();
    let url = "https://piltoverarchive.com/decks/view/0000-1111";
    let body = format!("<title>Sample deck</title><a href=\"/deckbuilder?code={code}\">builder</a>");
    let mut fetch = fixture(url, &body);
    let from_page = resolved(resolve_query_deck(
        &DeckQuery::Url(url.into()),
        &mut fetch,
        &mut test_catalog(),
    ));
    assert_eq!(fetch.requests, vec![url.to_string()]);
    assert_eq!(from_page.source_kind, "url");
    assert_eq!(from_page.title.as_deref(), Some("Sample deck"));
    let linked = format!("https://piltoverarchive.com/deckbuilder?code={code}");
    let mut unused = fixture("unused", "");
    let from_link = resolved(resolve_query_deck(
        &DeckQuery::Url(linked),
        &mut unused,
        &mut test_catalog(),
    ));
    assert!(unused.requests.is_empty());
    assert_eq!(from_link.resolution.deck, from_page.resolution.deck);
}

#[test]
fn off_allowlist_urls_are_refused_without_fetching() {
    let mut fetch = fixture("https://example.com/deck", "whatever");
    let refusal = resolve_query_deck(
        &DeckQuery::Url("https://example.com/deck".into()),
        &mut fetch,
        &mut test_catalog(),
    )
    .unwrap_err();
    assert_eq!(refusal.status, 403);
    assert_eq!(refusal.message, OFF_SITE);
    assert!(fetch.requests.is_empty());
}

#[test]
fn failures_map_to_distinct_statuses() {
    let unreachable = resolve_query_deck(
        &DeckQuery::Url("https://riftmana.com/decks/".into()),
        &mut fixture("unused", ""),
        &mut test_catalog(),
    )
    .unwrap_err();
    assert_eq!(unreachable.status, 502);
    assert_eq!(unreachable.message, "the fetch failed: no route");
    let no_deck = resolve_query_deck(
        &DeckQuery::Url("https://riftmana.com/decks/".into()),
        &mut fixture("https://riftmana.com/decks/", "<html>no code</html>"),
        &mut test_catalog(),
    )
    .unwrap_err();
    assert_eq!(no_deck.status, 422);
    let bad_code = resolve_query_deck(
        &DeckQuery::Code("not!base32".into()),
        &mut fixture("unused", ""),
        &mut test_catalog(),
    )
    .unwrap_err();
    assert_eq!(bad_code.status, 422);
    assert_eq!(bad_code.message, "deck code contains '!', not base32");
    let unresolvable = resolve_query_deck(
        &DeckQuery::Text("3 Completely Unknown Card\n".into()),
        &mut fixture("unused", ""),
        &mut test_catalog(),
    )
    .unwrap_err();
    assert_eq!(unresolvable.status, 422);
    assert_eq!(unresolvable.message, NO_CARDS);
}

#[test]
fn a_deck_that_only_failed_to_look_up_reports_the_failure() {
    let mut flaky = Flaky {
        inner: test_catalog(),
        broken: vec![Identifier::Name("Emberwing Scout".into())],
    };
    let refusal = resolve_query_deck(
        &DeckQuery::Text("3 Emberwing Scout\n".into()),
        &mut fixture("unused", ""),
        &mut flaky,
    )
    .unwrap_err();
    assert_eq!(refusal.status, 502);
    assert_eq!(
        refusal.message,
        "no cards resolved; Emberwing Scout: card lookup failed: the fetch failed: timeout"
    );
}

#[test]
fn tcg_arena_json_and_links_resolve_with_their_title_without_fetching() {
    let json = r#"{"game":"Riftbound","title":"Synthetic Arena","deckList":{"categoriesOrder":["Legend","Units","Runes"],"Legend":[{"count":1,"id":"ogn-201-298"}],"Units":[{"count":3,"id":"ogn-007-298"}],"Runes":[{"count":12,"id":"ogn-042-298"}]}}"#;
    let mut fetch = fixture("unused", "");
    let from_json = resolved(resolve_query_deck(
        &DeckQuery::Text(json.into()),
        &mut fetch,
        &mut test_catalog(),
    ));
    assert_eq!(from_json.title.as_deref(), Some("Synthetic Arena"));
    assert_eq!(from_json.source_kind, "text");
    assert_eq!(from_json.resolution.deck.runes[0].count, 12);
    let url = "https://tcg-arena.fr/import?game=Riftbound&name=Synthetic%20URL&deck=MSBWYW5ndWFyZCBTZW50aW5lbAozIEVtYmVyd2luZyBTY291dAoxMiBFbWJlciBSdW5lCg==";
    let from_url = resolved(resolve_query_deck(
        &DeckQuery::Url(url.into()),
        &mut fetch,
        &mut test_catalog(),
    ));
    assert_eq!(from_url.title.as_deref(), Some("Synthetic URL"));
    assert_eq!(
        from_url.resolution.deck.legend.as_ref().unwrap().name,
        "Vanguard Sentinel"
    );
    assert!(fetch.requests.is_empty());
}

#[test]
fn a_page_settles_by_what_the_fetch_gave() {
    let failed = from_page(
        Site::RiftMana,
        "https://riftmana.com/x",
        Err("the fetch failed: timeout".into()),
        &mut test_catalog(),
    )
    .unwrap_err();
    assert_eq!((failed.status, failed.message.as_str()), (502, "the fetch failed: timeout"));
    let empty = from_page(
        Site::RiftMana,
        "https://riftmana.com/x",
        Ok("<html></html>".into()),
        &mut test_catalog(),
    )
    .unwrap_err();
    assert_eq!(empty.status, 422);
    assert_eq!(
        empty.message,
        "no deck found in the riftmana.com page; paste the deck code or card list instead"
    );
}

#[test]
fn a_page_code_lists_its_champion_on_its_own() {
    let code = encode(&DecodedDeck {
        main: vec![CodeEntry {
            code: CardCode::parse("OGN-201").unwrap(),
            count: 1,
        }],
        sideboard: Vec::new(),
        champion: Some(CardCode::parse("OGN-007").unwrap()),
    })
    .unwrap();
    let parsed = page_code_deck(&code).unwrap();
    assert_eq!(parsed.entries.len(), 2);
    assert_eq!(parsed.entries[1].count, 1);
    assert_eq!(page_code_deck(&sample_code()).unwrap().entries.len(), 4);
    assert!(matches!(page_code_deck("not!base32"), Err(ParseError::Code(_))));
}

#[test]
fn a_query_fits_unless_its_code_names_an_uncounted_champion() {
    assert!(agni::riftbound::query::query_fits(&DeckQuery::Code(sample_code())));
    assert!(agni::riftbound::query::query_fits(&DeckQuery::Text("1 Emberwing Scout".into())));
    assert!(agni::riftbound::query::query_fits(&DeckQuery::Url("https://example.com/deck".into())));
    assert!(agni::riftbound::query::code_fits("not a code"));
}
