use agni::deck::catalog::{CardLookup as Lookup, LookupError};
use agni::riftbound::card_code::CardCode;
use agni::riftbound::catalog::{Cached, CardKind, CardLookup, CatalogCard, Layered, StaticCatalog};
use agni::riftbound::{Identifier, Riftbound};

fn test_catalog() -> StaticCatalog {
    let card = |name: &str, id: &str, kind: CardKind, champion: bool| CatalogCard {
        name: name.into(),
        riftbound_id: id.into(),
        kind,
        champion,
        image_url: Some(format!("https://img.example/{id}.png")),
        ..Default::default()
    };
    StaticCatalog::new(vec![
        card("Vanguard Sentinel", "ogn-201-298", CardKind::Legend, false),
        card("Emberwing Scout", "ogn-007-298", CardKind::Unit, true),
        card(
            "Emberwing Scout (Alternate Art)",
            "ogn-007a-298",
            CardKind::Unit,
            true,
        ),
        card("Gloomvale Trickster", "ogn-101-298", CardKind::Unit, false),
        card(
            "Yorick, Keeper of the 1000 Graves",
            "ogn-118-298",
            CardKind::Unit,
            false,
        ),
        card("Ember Rune", "ogn-042-298", CardKind::Rune, false),
        card("Tempest Rune", "ven-r01", CardKind::Rune, false),
        card(
            "Sunken Causeway",
            "ogn-260-298",
            CardKind::Battlefield,
            false,
        ),
        card("Duskwatch Warden", "ogn-088-298", CardKind::Gear, false),
        card("Sudden Undertow", "ogn-045-298", CardKind::Spell, false),
        card(
            "Marsh Envoy (Signature)",
            "unl-229*-219",
            CardKind::Unit,
            true,
        ),
        card(
            "Lillia - Bashful Bloom",
            "unl-189-219",
            CardKind::Legend,
            false,
        ),
        card(
            "Lillia - Bashful Bloom (Signature)",
            "unl-230*-219",
            CardKind::Legend,
            false,
        ),
        card(
            "Lillia - Bashful Bloom (Overnumbered)",
            "unl-230-219",
            CardKind::Legend,
            false,
        ),
    ])
}

#[test]
fn names_resolve_uniquely_by_prefix() {
    let mut catalog = test_catalog();
    let hit = catalog.by_name("emberwing scout").unwrap().unwrap();
    assert_eq!(hit.riftbound_id, "ogn-007-298");
    let hit = catalog.by_name("Yorick").unwrap().unwrap();
    assert_eq!(hit.riftbound_id, "ogn-118-298");
    assert!(catalog.by_name("Emberwing").unwrap().is_none());
    assert!(catalog.by_name("Unknown Card").unwrap().is_none());
}

#[test]
fn codes_resolve_through_id_fragments() {
    let mut catalog = test_catalog();
    let code = CardCode::parse("OGN-045").unwrap();
    let hit = catalog.by_code(&code).unwrap().unwrap();
    assert_eq!(hit.name, "Sudden Undertow");
    let rune = CardCode::parse("VEN-R01").unwrap();
    assert_eq!(
        catalog.by_code(&rune).unwrap().unwrap().name,
        "Tempest Rune"
    );
    let signed = CardCode::parse("UNL-229s").unwrap();
    assert_eq!(
        catalog.by_code(&signed).unwrap().unwrap().name,
        "Marsh Envoy (Signature)"
    );
    let base_does_not_match_alternate = CardCode::parse("UNL-229").unwrap();
    assert!(catalog
        .by_code(&base_does_not_match_alternate)
        .unwrap()
        .is_none());
}

#[test]
fn a_legend_resolves_beside_its_signature_printing() {
    let mut catalog = test_catalog();
    let base = CardCode::parse("UNL-230").unwrap();
    assert_eq!(
        catalog.by_code(&base).unwrap().unwrap().name,
        "Lillia - Bashful Bloom (Overnumbered)"
    );
    let signed = CardCode::parse("UNL-230s").unwrap();
    assert_eq!(
        catalog.by_code(&signed).unwrap().unwrap().name,
        "Lillia - Bashful Bloom (Signature)"
    );
    assert_eq!(
        catalog.by_id("unl-230").unwrap().unwrap().riftbound_id,
        "unl-230-219"
    );
    assert_eq!(
        catalog
            .by_name("Lillia - Bashful Bloom")
            .unwrap()
            .unwrap()
            .riftbound_id,
        "unl-189-219"
    );
    assert!(catalog.by_name("Lillia").unwrap().is_none());
}

#[test]
fn ids_resolve_with_or_without_set_size() {
    let mut catalog = test_catalog();
    assert_eq!(
        catalog.by_id("ogn-007-298").unwrap().unwrap().name,
        "Emberwing Scout"
    );
    assert_eq!(
        catalog.by_id("OGN-007").unwrap().unwrap().name,
        "Emberwing Scout"
    );
    assert!(catalog.by_id("ogn-999-298").unwrap().is_none());
}

#[test]
fn the_cache_keys_names_and_ids_apart() {
    struct Counting {
        inner: StaticCatalog,
        calls: usize,
    }
    impl Lookup<Riftbound> for Counting {
        fn find(&mut self, identifier: &Identifier) -> Result<Option<CatalogCard>, LookupError> {
            self.calls += 1;
            self.inner.find(identifier)
        }
    }
    let mut cached: Cached<Counting> = Cached::new(Counting {
        inner: test_catalog(),
        calls: 0,
    });
    for _ in 0..3 {
        assert!(cached.by_name("Emberwing Scout").unwrap().is_some());
        assert!(cached.by_name("emberwing  SCOUT!").unwrap().is_some());
        assert!(cached.by_id("ogn-042-298").unwrap().is_some());
        assert!(cached
            .by_code(&CardCode::parse("OGN-042").unwrap())
            .unwrap()
            .is_some());
    }
    assert_eq!(cached.inner().calls, 3);
}

#[test]
fn a_layered_lookup_falls_through_on_a_miss_and_on_a_padded_hit() {
    let padded = CatalogCard {
        name: "Emberwing Scout".into(),
        riftbound_id: "ogn-007-298".into(),
        ..Default::default()
    };
    assert!(padded.is_padded());
    let mut layered = Layered {
        first: StaticCatalog::new(vec![padded.clone()]),
        second: test_catalog(),
    };
    let hit = layered.by_id("ogn-007-298").unwrap().unwrap();
    assert_eq!(
        hit.kind,
        CardKind::Unit,
        "the padded record defers to the full one"
    );
    let hit = layered.by_name("Gloomvale Trickster").unwrap().unwrap();
    assert_eq!(
        hit.riftbound_id, "ogn-101-298",
        "a miss reaches the second lookup"
    );
    let mut only_padded = Layered {
        first: StaticCatalog::new(vec![padded.clone()]),
        second: StaticCatalog::new(Vec::new()),
    };
    let hit = only_padded.by_id("ogn-007-298").unwrap().unwrap();
    assert!(
        hit.is_padded(),
        "a padded record still answers when nothing better exists"
    );
    assert!(only_padded.by_name("Unknown Card").unwrap().is_none());
}

#[test]
fn card_kinds_read_in_any_case() {
    assert_eq!(CardKind::parse("LEGEND"), CardKind::Legend);
    assert_eq!(CardKind::parse("battlefield"), CardKind::Battlefield);
    assert_eq!(CardKind::parse("token"), CardKind::Other);
    assert_eq!(CardKind::Spell.as_str(), "Spell");
}

#[test]
fn a_resolved_card_carries_the_record_kind_by_name() {
    let record = CatalogCard {
        name: "Ember Rune".into(),
        riftbound_id: "ogn-042-298".into(),
        kind: CardKind::Rune,
        domain: vec!["Fury".into()],
        ..Default::default()
    };
    let card = record.resolved();
    assert_eq!(card.kind.as_deref(), Some("Rune"));
    assert_eq!(card.domain, vec!["Fury".to_string()]);
    assert_eq!(card.name, "Ember Rune");
}
