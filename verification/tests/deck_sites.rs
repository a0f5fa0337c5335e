use agni::riftbound::gateway::{query_of, DECK_SITE_ALLOWLIST};
use agni::riftbound::query::DeckQuery;
use agni::riftbound::gateway::deck_url_allowed;
use agni::riftbound::search::{parse_results, plain, search_url};

#[test]
fn deck_site_allowlisting_checks_the_real_host() {
    assert!(deck_url_allowed("https://piltoverarchive.com/decks/view/x"));
    assert!(deck_url_allowed("https://www.riftdecks.com/a/b"));
    assert!(deck_url_allowed("http://RIFTMANA.com/decks/"));
    assert!(!deck_url_allowed("https://example.com/piltoverarchive.com"));
    assert!(!deck_url_allowed("https://piltoverarchive.com.evil.com/"));
    assert!(!deck_url_allowed("https://user@evil.com/?u=riftmana.com"));
}

#[test]
fn search_is_fixed_origin_encoded_and_bounded() {
    assert!(search_url("https://evil.example", "", 1).is_err());
    assert!(search_url("piltover", "", 0).is_err());
    assert!(search_url("riftdecks", &"x".repeat(161), 1).is_err());
    assert!(search_url("piltover", "a&b", 1).unwrap().contains("a%26b"));
}

#[test]
fn a_search_names_the_site_query_and_page() {
    assert_eq!(
        search_url("riftdecks", "  Kai'Sa ", 2).unwrap(),
        "https://riftdecks.com/riftbound-decks?omni=Kai%27Sa&page=2"
    );
    assert_eq!(
        search_url("piltover", "a\u{7}b", 1).unwrap_err(),
        "Search needs at most 160 bytes and page 1–10"
    );
    assert_eq!(
        search_url("elsewhere", "x", 1).unwrap_err(),
        "Choose piltover or riftdecks"
    );
    assert!(deck_url_allowed("https://tcg-arena.fr:443/import?x=1"));
}

#[test]
fn off_allowlist_urls_are_refused_before_any_fetch() {
    let reply = query_of(Some("https://example.com/deck"), None, None).unwrap_err();
    assert_eq!(reply.status, 403);
    assert_eq!(
        reply.message,
        format!("deck links are only fetched from {}", DECK_SITE_ALLOWLIST.join(", "))
    );
}

#[test]
fn a_query_needs_one_of_the_three_parameters() {
    assert_eq!(query_of(None, None, None).unwrap_err().status, 400);
    assert_eq!(
        query_of(None, Some("CEBAIAAA"), None).unwrap(),
        DeckQuery::Code("CEBAIAAA".into())
    );
    assert_eq!(
        query_of(None, None, Some("3 Emberwing Scout")).unwrap(),
        DeckQuery::Text("3 Emberwing Scout".into())
    );
    assert_eq!(
        query_of(Some("https://riftmana.com/decks/1"), Some("CEBAIAAA"), None).unwrap(),
        DeckQuery::Url("https://riftmana.com/decks/1".into())
    );
}

#[test]
fn extracts_only_named_deck_links_and_never_executable_markup() {
    let page = "<a href=\"/decks/view/one\"><span>Example &amp; deck</span></a><a href='/decks/view/one'>duplicate</a><a href='https://evil.example/decks/view/two'>wrong origin</a><a href='javascript:alert(1)'>bad</a>";
    let result = parse_results("piltover", page).unwrap();
    assert_eq!(result.len(), 1);
    assert_eq!(result[0].title, "Example & deck");
    assert_eq!(result[0].url, "https://piltoverarchive.com/decks/view/one");
    let rift = parse_results(
        "riftdecks",
        "<a href='/riftbound-metagame/deck-test-1'>Test</a>",
    )
    .unwrap();
    assert_eq!(
        rift[0].url,
        "https://riftdecks.com/riftbound-metagame/deck-test-1"
    );
    assert_eq!(parse_results("elsewhere", page).unwrap_err(), "Unknown deck site");
}

#[test]
fn results_stop_at_the_limit_and_keep_absolute_links_at_the_origin() {
    let mut page = String::from("<a href=\"https://piltoverarchive.com/decks/view/first?a=1&amp;b=2\">First</a>");
    for n in 0..30 {
        page.push_str(&format!("<a href='/decks/view/{n}'>Deck {n}</a>"));
    }
    let rows = parse_results("piltover", &page).unwrap();
    assert_eq!(rows.len(), 20);
    assert_eq!(rows[0].url, "https://piltoverarchive.com/decks/view/first?a=1&b=2");
    assert_eq!(rows[19].title, "Deck 18");
}

#[test]
fn plain_text_drops_tags_reads_entities_and_collapses_spaces() {
    assert_eq!(plain("<b>Tom</b> &amp;\n  Jerry&#39;s &quot;deck&quot;&nbsp;&lt;1&gt;"), "Tom & Jerry's \"deck\" <1>");
    assert_eq!(plain(&"x".repeat(300)).len(), 200);
}
