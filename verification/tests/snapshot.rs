use agni::snapshot::{DeckIdentity, Snapshot, SnapshotCard, SnapshotZone};

fn card(key: &str, count: u32) -> SnapshotCard {
    SnapshotCard {
        count,
        image_url: Some(format!("https://art.example/{key}.png")),
        kind: None,
        energy: None,
        power: None,
        might: None,
        key: key.into(),
        name: format!("Card {key}"),
        domain: Vec::new(),
        tags: Vec::new(),
        signature: false,
    }
}

fn deck(zones: Vec<SnapshotZone>) -> Snapshot {
    Snapshot::new("riftbound", zones)
}

#[test]
fn card_order_does_not_change_the_identity() {
    let straight = deck(vec![SnapshotZone::new(
        "main",
        vec![card("a", 2), card("b", 1)],
    )]);
    let shuffled = deck(vec![SnapshotZone::new(
        "main",
        vec![card("b", 1), card("a", 2)],
    )]);
    assert_eq!(straight.identity(), shuffled.identity());
}

#[test]
fn zone_order_does_not_change_the_identity() {
    let straight = deck(vec![
        SnapshotZone::new("main", vec![card("a", 1)]),
        SnapshotZone::new("sideboard", vec![card("b", 1)]),
    ]);
    let swapped = deck(vec![
        SnapshotZone::new("sideboard", vec![card("b", 1)]),
        SnapshotZone::new("main", vec![card("a", 1)]),
    ]);
    assert_eq!(straight.identity(), swapped.identity());
}

#[test]
fn a_split_entry_folds_into_one_count() {
    let split = deck(vec![SnapshotZone::new(
        "main",
        vec![card("a", 1), card("a", 2)],
    )]);
    let merged = deck(vec![SnapshotZone::new("main", vec![card("a", 3)])]);
    assert_eq!(split.identity(), merged.identity());
    assert_eq!(split.total(), 3);
}

#[test]
fn tags_and_signature_are_not_identity() {
    let mine = deck(vec![SnapshotZone::new("main", vec![card("a", 1)])]);
    let mut tagged = mine.clone();
    tagged.zones[0].cards[0].tags = vec!["Lillia".into()];
    tagged.zones[0].cards[0].signature = true;
    assert_eq!(mine.identity(), tagged.identity());
    assert_ne!(mine, tagged);
}

#[test]
fn art_and_display_names_are_not_identity() {
    let mine = deck(vec![SnapshotZone::new("main", vec![card("a", 1)])]);
    let mut theirs = mine.clone();
    theirs.zones[0].cards[0].image_url = None;
    theirs.zones[0].cards[0].name = "Anything Else".into();
    assert_eq!(mine.identity(), theirs.identity());
    assert_ne!(mine, theirs);
}

#[test]
fn an_empty_zone_is_the_same_as_an_absent_one() {
    let bare = deck(vec![SnapshotZone::new("main", vec![card("a", 1)])]);
    let padded = deck(vec![
        SnapshotZone::new("main", vec![card("a", 1)]),
        SnapshotZone::new("sideboard", Vec::new()),
    ]);
    assert_eq!(bare.identity(), padded.identity());
}

#[test]
fn a_changed_count_or_card_is_a_different_deck() {
    let base = deck(vec![SnapshotZone::new("main", vec![card("a", 2)])]);
    let recount = deck(vec![SnapshotZone::new("main", vec![card("a", 3)])]);
    let swapped = deck(vec![SnapshotZone::new("main", vec![card("z", 2)])]);
    let sided = deck(vec![
        SnapshotZone::new("main", vec![card("a", 2)]),
        SnapshotZone::new("sideboard", vec![card("b", 1)]),
    ]);
    assert_ne!(base.identity(), recount.identity());
    assert_ne!(base.identity(), swapped.identity());
    assert_ne!(base.identity(), sided.identity());
}

#[test]
fn the_same_list_in_another_game_is_another_deck() {
    let riftbound = deck(vec![SnapshotZone::new("main", vec![card("a", 1)])]);
    let mtg = Snapshot::new("mtg", vec![SnapshotZone::new("main", vec![card("a", 1)])]);
    assert_ne!(riftbound.identity(), mtg.identity());
}

#[test]
fn zones_read_back_by_name() {
    let built = deck(vec![
        SnapshotZone::new("legend", vec![card("l", 1)]),
        SnapshotZone::new("main", vec![card("a", 40)]),
    ]);
    assert_eq!(built.zone("legend").unwrap().total(), 1);
    assert_eq!(built.zone("main").unwrap().total(), 40);
    assert!(built.zone("runes").is_none());
    assert_eq!(built.total(), 41);
}

#[test]
fn the_identity_lists_zones_and_keys_in_order_without_empty_counts() {
    let built = deck(vec![
        SnapshotZone::new("sideboard", vec![card("c", 1), card("a", 0)]),
        SnapshotZone::new("main", vec![card("b", 2), card("a", 1), card("b", 1)]),
        SnapshotZone::new("legend", vec![card("x", 0)]),
    ]);
    let identity: DeckIdentity = built.identity();
    assert_eq!(identity.game, "riftbound");
    let zones: Vec<(&str, Vec<(&str, u32)>)> = identity
        .zones
        .iter()
        .map(|zone| {
            (
                zone.zone.as_str(),
                zone.cards.iter().map(|card| (card.key.as_str(), card.count)).collect(),
            )
        })
        .collect();
    assert_eq!(
        zones,
        vec![
            ("main", vec![("a", 1), ("b", 3)]),
            ("sideboard", vec![("c", 1)]),
        ]
    );
}
