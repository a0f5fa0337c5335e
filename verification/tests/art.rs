use agni::art::{asset_key, asset_url_allowed, host_of, split_asset_key};

fn parts(key: &str) -> Option<(String, String)> {
    split_asset_key(key)
}

#[test]
fn asset_keys_name_their_journal_and_only_allowlisted_hosts_fetch() {
    assert_eq!(
        asset_key("playmats", " Playmat:Akali "),
        "playmats/playmat:akali"
    );
    assert_eq!(
        parts("riftbound-images/ogn-001-298")
            .as_ref()
            .map(|(journal, name)| (journal.as_str(), name.as_str())),
        Some(("riftbound-images", "ogn-001-298"))
    );
    assert_eq!(parts("secrets/x"), None);
    assert_eq!(parts("playmats/"), None);
    assert!(asset_url_allowed(
        "https://cmsassets.rgpub.io/sanity/images/a.jpg?w=1"
    ));
    assert!(asset_url_allowed(
        "https://cards.scryfall.io/large/front/a.jpg"
    ));
    assert!(
        !asset_url_allowed("http://cmsassets.rgpub.io/a.jpg"),
        "https only"
    );
    assert!(!asset_url_allowed(
        "https://cmsassets.rgpub.io.evil.com/a.jpg"
    ));
    assert!(!asset_url_allowed(
        "https://user@evil.com/?u=cards.scryfall.io"
    ));
    assert!(!asset_url_allowed("https://example.org/mine.png"));
}

#[test]
fn hosts_are_read_past_users_and_ports_and_lower_cased() {
    assert_eq!(
        host_of("https://User@Cards.Scryfall.IO:443/a.jpg").as_deref(),
        Some("cards.scryfall.io")
    );
    assert_eq!(host_of("https:///a.jpg"), None);
    assert_eq!(host_of("cards.scryfall.io/a").as_deref(), Some("cards.scryfall.io"));
}
