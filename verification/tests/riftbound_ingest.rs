use agni::riftbound::catalog::{CardKind, CatalogCard};
use agni::riftbound::ingest::{
    art_merge, catalog_card, id_step, merge_changes, ArtMerge, image_step, record, record_of, step_changes, wanted_art, IdStep, ImageStep, IngestedIds,
    RiftboundCard,
};
use agni::riftbound::riftcodex::{
    ApiCard, Attributes, CardText, Classification, Media, Metadata, SetInfo,
};

fn sample_card(name: &str, id: &str, card_type: &str) -> RiftboundCard {
    RiftboundCard {
        name: name.into(),
        image: String::new(),
        riftbound_id: id.into(),
        card_type: card_type.into(),
        supertype: String::new(),
        rarity: "Common".into(),
        domain: vec!["Calm".into()],
        energy: Some(2),
        might: Some(1),
        power: None,
        text: "When you play me, invent a card.".into(),
        set_id: "OGN".into(),
        set_label: "Origins".into(),
        collector_number: Some(7),
        clean_name: name.into(),
        image_url: String::new(),
        tags: vec!["Ionia".into()],
    }
}

#[test]
fn a_stored_record_reads_as_a_catalog_card_with_its_base_name() {
    let mut stored = sample_card("Master Yi - Wuju Bladesman (Starter)", "ogs-019-024", "Legend");
    stored.supertype = "Champion".into();
    stored.energy = Some(300);
    let card = catalog_card(&stored);
    assert_eq!(card.name, "Master Yi - Wuju Bladesman");
    assert_eq!(card.kind, CardKind::Legend);
    assert!(card.champion);
    assert!(!card.signature);
    assert_eq!(card.energy, None);
    assert_eq!(card.might, Some(1));
    assert_eq!(card.image_url, None);
    assert_eq!(card.set_id.as_deref(), Some("OGN"));
    assert_eq!(card.text.as_deref(), Some("When you play me, invent a card."));
    assert_eq!(card.tags, vec!["Ionia".to_string()]);
}

#[test]
fn a_catalog_card_records_what_it_knows_and_leaves_the_rest_empty() {
    let mut card = catalog_card(&sample_card("Emberwing Scout", "ogn-007-298", "Unit"));
    card.signature = true;
    let stored = record_of(&card, "blob".into());
    assert_eq!(stored.image, "blob");
    assert_eq!(stored.card_type, "Unit");
    assert_eq!(stored.supertype, "Signature");
    assert_eq!(stored.rarity, "");
    assert_eq!(stored.energy, Some(2));
    assert_eq!(stored.collector_number, None);
    let art = wanted_art(&card);
    assert_eq!(art.key, "ogn-007-298");
    assert_eq!(art.name, "Emberwing Scout");
    assert_eq!(art.image_url, None);
    card.kind = CardKind::Other;
    assert_eq!(record_of(&card, String::new()).card_type, "");
}

#[test]
fn an_api_card_records_its_canonical_name_and_every_field() {
    let card = ApiCard {
        name: "Curator of the Sands".into(),
        riftbound_id: "ven-192-166".into(),
        collector_number: Some(192),
        classification: Classification {
            card_type: Some("Legend".into()),
            supertype: None,
            rarity: Some("Rare".into()),
            domain: vec!["Order".into()],
        },
        attributes: Attributes::default(),
        text: CardText::default(),
        set: SetInfo {
            set_id: "VEN".into(),
            label: Some("Vengeance".into()),
        },
        media: Media {
            image_url: Some("https://cmsassets.rgpub.io/a.png".into()),
        },
        tags: vec!["Nasus".into()],
        metadata: Metadata::default(),
    };
    let stored = record(&card, "blob".into());
    assert_eq!(stored.name, "Nasus - Curator of the Sands");
    assert_eq!(stored.card_type, "Legend");
    assert_eq!(stored.supertype, "");
    assert_eq!(stored.rarity, "Rare");
    assert_eq!(stored.text, "");
    assert_eq!(stored.set_label, "Vengeance");
    assert_eq!(stored.collector_number, Some(192));
    assert_eq!(stored.image_url, "https://cmsassets.rgpub.io/a.png");
}

fn looked_up(id: &str, image_url: Option<&str>) -> ApiCard {
    ApiCard {
        name: "Some Card".into(),
        riftbound_id: id.into(),
        collector_number: None,
        classification: Classification {
            card_type: Some("Unit".into()),
            supertype: None,
            rarity: None,
            domain: Vec::new(),
        },
        attributes: Attributes::default(),
        text: CardText::default(),
        set: SetInfo {
            set_id: "OGN".into(),
            label: None,
        },
        media: Media {
            image_url: image_url.map(String::from),
        },
        tags: Vec::new(),
        metadata: Metadata::default(),
    }
}

#[test]
fn each_id_is_refreshed_reused_fetched_or_reported() {
    let items = vec![
        looked_up("ogn-007a-298", Some("https://img.test/a.png")),
        looked_up("OGN-007-298", Some("https://img.test/b.png")),
        looked_up("ogn-008-298", Some("")),
    ];
    assert_eq!(id_step("ogn-007-298", true, true, &items), IdStep::Refresh);
    assert_eq!(id_step("ogn-007-298", true, false, &items), IdStep::Reuse(1));
    assert_eq!(
        id_step("Ogn-007-298", false, true, &items),
        IdStep::Fetch(1, "https://img.test/b.png".into())
    );
    assert_eq!(id_step("ogn-008-298", false, false, &items), IdStep::Artless);
    assert_eq!(id_step("ogn-009-298", false, false, &items), IdStep::Unknown);
}

#[test]
fn a_full_ingest_fetches_only_unjournaled_art() {
    assert_eq!(image_step(&looked_up("a", None), false), ImageStep::Skip);
    assert_eq!(image_step(&looked_up("a", Some("")), false), ImageStep::Skip);
    assert_eq!(image_step(&looked_up("a", Some("https://x")), true), ImageStep::Reuse);
    assert_eq!(
        image_step(&looked_up("a", Some("https://x")), false),
        ImageStep::Fetch("https://x".into())
    );
}

#[test]
fn each_step_is_tallied_under_its_outcome() {
    let mut outcome = IngestedIds::new();
    outcome.note("ogn-001-298".into(), &IdStep::Refresh);
    outcome.note("ogn-002-298".into(), &IdStep::Reuse(0));
    outcome.note("ogn-003-298".into(), &IdStep::Unknown);
    outcome.note("ogn-004-298".into(), &IdStep::Artless);
    outcome.note("ogn-005-298".into(), &IdStep::Fetch(1, "https://img.example/5.png".into()));
    assert_eq!(outcome.reused, vec!["ogn-001-298".to_string(), "ogn-002-298".to_string()]);
    assert_eq!(outcome.unknown, vec!["ogn-003-298".to_string()]);
    assert_eq!(outcome.artless, vec!["ogn-004-298".to_string()]);
    assert_eq!(outcome.fetched, vec!["ogn-005-298".to_string()]);
    assert_eq!(outcome.manifest, None);
    assert!(!step_changes(&IdStep::Refresh, false));
    assert!(step_changes(&IdStep::Refresh, true));
    assert!(step_changes(&IdStep::Reuse(0), false));
    assert!(!step_changes(&IdStep::Unknown, true));
}

#[test]
fn fetched_art_repoints_a_record_or_records_the_deck_card() {
    let cards = vec![
        CatalogCard {
            name: "Calm Rune".into(),
            riftbound_id: "OGN-042-298".into(),
            ..Default::default()
        },
        CatalogCard {
            name: "Defy".into(),
            riftbound_id: "ogn-083-298".into(),
            ..Default::default()
        },
    ];
    assert_eq!(art_merge("ogn-042-298", "abc", Some("abc"), &cards), ArtMerge::Same);
    assert_eq!(art_merge("ogn-042-298", "abc", Some("def"), &cards), ArtMerge::Repoint);
    assert_eq!(art_merge("ogn-042-298", "abc", None, &cards), ArtMerge::Record(0));
    assert_eq!(art_merge("OGN-083-298", "abc", None, &cards), ArtMerge::Record(1));
    assert_eq!(art_merge("ogn-999-298", "abc", None, &cards), ArtMerge::Skip);
    assert!(merge_changes(&ArtMerge::Repoint));
    assert!(merge_changes(&ArtMerge::Record(0)));
    assert!(!merge_changes(&ArtMerge::Same));
    assert!(!merge_changes(&ArtMerge::Skip));
}
