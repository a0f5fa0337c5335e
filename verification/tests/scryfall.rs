use agni::scryfall::{image_url, manifest_card, CardFace, ImageUris, ScryfallCard};

fn face(cost: &str, art: Option<&str>) -> CardFace {
    CardFace {
        mana_cost: Some(cost.into()),
        type_line: Some("Creature — Elf".into()),
        oracle_text: None,
        image_uris: art.map(|normal| ImageUris {
            normal: normal.into(),
        }),
    }
}

#[test]
fn a_two_faced_card_is_recorded_from_its_front_face() {
    let card = ScryfallCard {
        name: "Mistfen Causeway // Mistfen Deeps".into(),
        mana_cost: None,
        type_line: Some("Land // Land".into()),
        oracle_text: None,
        image_uris: None,
        card_faces: Some(vec![face("{G}", Some("https://img/front.jpg")), face("{U}", None)]),
    };
    assert_eq!(image_url(&card).as_deref(), Some("https://img/front.jpg"));
    let record = manifest_card(&card, "blob".into());
    assert_eq!(record.mana_cost, "{G}");
    assert_eq!(record.type_line, "Land // Land");
    assert_eq!(record.oracle_text, "");
    assert_eq!(record.image, "blob");
}

#[test]
fn a_card_without_art_or_faces_has_no_image() {
    let card = ScryfallCard {
        name: "Cinderveil Ward".into(),
        mana_cost: Some("{2}".into()),
        type_line: None,
        oracle_text: Some("Ward.".into()),
        image_uris: None,
        card_faces: None,
    };
    assert!(image_url(&card).is_none());
    let record = manifest_card(&card, String::new());
    assert_eq!(record.mana_cost, "{2}");
    assert_eq!(record.type_line, "");
    assert_eq!(record.oracle_text, "Ward.");
}
