use agni::riftbound::deck_code::{decode, encodable, encode_deck, CodeEntry};
use agni::riftbound::resolved::{DeckEntry, ResolvedCard, ResolvedDeck};

fn resolved(name: &str, id: &str, kind: &str) -> ResolvedCard {
    ResolvedCard {
        name: name.into(),
        riftbound_id: id.into(),
        kind: Some(kind.into()),
        ..Default::default()
    }
}

fn sorted(mut entries: Vec<CodeEntry>) -> Vec<CodeEntry> {
    entries.sort();
    entries
}

#[test]
fn a_resolved_deck_encodes_with_reprints_folded_and_every_zone_in_main() {
    let deck = ResolvedDeck {
        legend: Some(resolved("Lillia - Bashful Bloom", "unl-189-219", "Legend")),
        chosen_champion: Some(resolved("Lillia - Fae Fawn", "unl-082-219", "Unit")),
        main_deck: vec![
            DeckEntry {
                card: resolved("Consult the Past", "opp-083-298", "Spell"),
                count: 2,
            },
            DeckEntry {
                card: resolved("Poppy - Paragon", "unl-116a-219", "Unit"),
                count: 3,
            },
        ],
        runes: vec![DeckEntry {
            card: resolved("Calm Rune", "ogn-042-298", "Rune"),
            count: 12,
        }],
        battlefields: vec![DeckEntry {
            card: resolved("Seat of Power", "sfd-217-221", "Battlefield"),
            count: 1,
        }],
        sideboard: vec![DeckEntry {
            card: resolved("Pickpocket", "ogn-100-298", "Unit"),
            count: 1,
        }],
    };
    let code = encode_deck(&deck).unwrap();
    let decoded = decode(&code).unwrap();
    assert_eq!(decoded.champion.unwrap().to_text(), "UNL-082");
    let main: Vec<(String, u32)> = sorted(decoded.main)
        .into_iter()
        .map(|entry| (entry.code.to_text(), entry.count))
        .collect();
    assert_eq!(
        main,
        vec![
            ("OGN-042".to_string(), 12),
            ("OGN-083".to_string(), 2),
            ("SFD-217".to_string(), 1),
            ("UNL-082".to_string(), 1),
            ("UNL-116a".to_string(), 3),
            ("UNL-189".to_string(), 1),
        ],
        "the chosen champion is one of the main-deck cards, as Rift Atlas and Piltover Archive read the code"
    );
    assert_eq!(decoded.sideboard.len(), 1);
    assert_eq!(decoded.sideboard[0].code.to_text(), "OGN-100");
}

#[test]
fn a_print_with_no_wire_set_and_no_base_fold_is_named_in_the_error() {
    let special = ResolvedDeck {
        main_deck: vec![DeckEntry {
            card: resolved("Kai'Sa - Survivor", "ven-sp1-006", "Unit"),
            count: 1,
        }],
        ..Default::default()
    };
    let code = encode_deck(&special).unwrap();
    assert_eq!(decode(&code).unwrap().main[0].code.to_text(), "VEN-SP1");
    let promo = ResolvedDeck {
        main_deck: vec![DeckEntry {
            card: resolved("Jinx - Rebel", "pr-003", "Unit"),
            count: 1,
        }],
        ..Default::default()
    };
    let error = encode_deck(&promo).unwrap_err();
    assert!(error.contains("PR-003"), "{error}");
    assert!(error.contains("no Piltover Archive set number"), "{error}");
    let bare = ResolvedDeck {
        legend: Some(resolved("Master Yi - Wuju Bladesman", "opp-019", "Legend")),
        ..Default::default()
    };
    let error = encode_deck(&bare).unwrap_err();
    assert!(error.contains("OPP-019"), "{error}");
    assert!(encode_deck(&ResolvedDeck::default()).is_ok());
}

#[test]
fn an_id_that_is_no_card_code_is_quoted_in_the_error() {
    let error = encodable("nonsense").unwrap_err();
    assert_eq!(
        error,
        "\"nonsense\" is not a card code like OGN-045, OGN-R05, OGN-SP3 or UNL-116a"
    );
    assert_eq!(encodable("opp-083-298").unwrap().to_text(), "OGN-083");
}

#[test]
fn a_sideboard_card_that_cannot_be_carried_is_named() {
    let deck = ResolvedDeck {
        sideboard: vec![DeckEntry {
            card: resolved("Jinx - Rebel", "pr-003", "Unit"),
            count: 1,
        }],
        ..Default::default()
    };
    let error = encode_deck(&deck).unwrap_err();
    assert!(error.starts_with("PR-003 is a PR print"), "{error}");
}
