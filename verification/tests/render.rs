use agni::riftbound::code_list::{render as render_codes, NO_SIDEBOARD};
use agni::riftbound::resolved::{DeckEntry, ResolvedCard, ResolvedDeck};
use agni::riftbound::text_list::{merged_by_name, ordered, render as render_text};

fn card(name: &str, id: &str, kind: &str, energy: Option<u8>) -> ResolvedCard {
    ResolvedCard {
        name: name.into(),
        riftbound_id: id.into(),
        kind: Some(kind.into()),
        energy,
        ..Default::default()
    }
}

fn entry(c: ResolvedCard, count: u32) -> DeckEntry {
    DeckEntry { card: c, count }
}

#[test]
fn entries_sort_by_kind_then_energy_then_name() {
    let entries = vec![
        entry(card("Zed Spell", "ogn-010-298", "Spell", Some(1)), 1),
        entry(card("beta Unit", "ogn-002-298", "Unit", Some(3)), 2),
        entry(card("Alpha Unit", "ogn-001-298", "Unit", Some(3)), 1),
        entry(card("Cheap Unit", "ogn-003-298", "Unit", Some(1)), 1),
        entry(card("Odd Thing", "ogn-004-298", "Mystery", None), 1),
    ];
    let names: Vec<&str> = ordered(&entries).iter().map(|e| e.card.name.as_str()).collect();
    assert_eq!(
        names,
        vec!["Cheap Unit", "Alpha Unit", "beta Unit", "Zed Spell", "Odd Thing"]
    );
}

#[test]
fn prints_of_one_name_merge_into_one_line() {
    let entries = vec![
        entry(card("Calm Rune", "ogn-042-298", "Rune", None), 6),
        entry(card("Calm Rune", "ogn-042a-298", "Rune", None), 6),
        entry(card("Fury Rune", "ogn-007-298", "Rune", None), 2),
    ];
    assert_eq!(
        merged_by_name(&entries),
        vec![("Calm Rune".to_string(), 12), ("Fury Rune".to_string(), 2)]
    );
}

#[test]
fn a_deck_renders_as_a_text_list_by_section() {
    let deck = ResolvedDeck {
        legend: Some(card("Lillia - Bashful Bloom", "unl-189-219", "Legend", None)),
        main_deck: vec![
            entry(card("Defy", "ogn-083-298", "Spell", Some(2)), 3),
            entry(card("Emberwing Scout", "ogn-007-298", "Unit", Some(1)), 2),
        ],
        runes: vec![entry(card("Calm Rune", "ogn-042-298", "Rune", None), 12)],
        ..Default::default()
    };
    assert_eq!(
        render_text(&deck),
        "Legend:\n1 Lillia - Bashful Bloom\n\nMainDeck:\n2 Emberwing Scout\n3 Defy\n\nRunes:\n12 Calm Rune\n"
    );
    assert_eq!(render_text(&ResolvedDeck::default()), "");
}

#[test]
fn a_deck_renders_as_a_code_list_of_base_prints() {
    let deck = ResolvedDeck {
        legend: Some(card("Lillia - Bashful Bloom", "unl-189-219", "Legend", None)),
        main_deck: vec![
            entry(card("Consult the Past", "opp-083-298", "Spell", Some(2)), 2),
            entry(card("Emberwing Scout", "ogn-007-298", "Unit", Some(1)), 1),
        ],
        runes: vec![entry(card("Calm Rune", "ogn-042-298", "Rune", None), 12)],
        ..Default::default()
    };
    assert_eq!(
        render_codes(&deck).unwrap(),
        "UNL-189 OGN-007 OGN-083-2 OGN-042-12"
    );
    let with_side = ResolvedDeck {
        sideboard: vec![entry(card("Pickpocket", "ogn-100-298", "Unit", Some(2)), 1)],
        ..Default::default()
    };
    assert_eq!(render_codes(&with_side), Err(NO_SIDEBOARD.to_string()));
    let bad = ResolvedDeck {
        main_deck: vec![entry(card("Odd", "nonsense", "Unit", None), 1)],
        ..Default::default()
    };
    assert!(render_codes(&bad).unwrap_err().contains("\"nonsense\""));
}
