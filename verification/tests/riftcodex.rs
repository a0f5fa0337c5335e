use agni::riftbound::card_code::CardCode;
use agni::riftbound::riftcodex::{
    answer, base_of, catalog_card, failure_of, page_path, pick_by_fragment, pick_by_name,
    request_for, request_path, small, ApiCard, Attributes, CardText, Classification, Media,
    Metadata, Request, SetInfo,
};
use agni::riftbound::Identifier;
use agni::transport::{GaveUp, TransportError};

fn api_card(name: &str, id: &str, card_type: &str, clean: Option<&str>) -> ApiCard {
    ApiCard {
        name: name.into(),
        riftbound_id: id.into(),
        collector_number: None,
        classification: Classification {
            card_type: Some(card_type.into()),
            supertype: None,
            rarity: None,
            domain: Vec::new(),
        },
        attributes: Attributes::default(),
        text: CardText::default(),
        set: SetInfo {
            set_id: "OGN".into(),
            label: None,
        },
        media: Media::default(),
        tags: Vec::new(),
        metadata: Metadata {
            clean_name: clean.map(String::from),
        },
    }
}

#[test]
fn fuzzy_picks_prefer_exact_then_unique() {
    let items = vec![
        api_card("Emberwing Scout", "ogn-007-298", "Unit", None),
        api_card(
            "Emberwing Scout (Alternate Art)",
            "ogn-007a-298",
            "Unit",
            None,
        ),
    ];
    let hit = pick_by_name(&items, "emberwing scout").unwrap();
    assert_eq!(hit.riftbound_id, "ogn-007-298");
    assert!(pick_by_name(&items, "emberwing").is_none());
    let single = vec![api_card("Gloomvale Trickster", "ogn-101-298", "Unit", None)];
    assert!(pick_by_name(&single, "gloomvale").is_some());
}

#[test]
fn clean_names_match_when_punctuation_differs() {
    let items = vec![api_card(
        "Vi - Piltover Patroller (Signature)",
        "unl-229*-219",
        "Legend",
        Some("Vi Piltover Patroller Signature"),
    )];
    assert!(pick_by_name(&items, "Vi Piltover Patroller Signature").is_some());
}

#[test]
fn fragments_match_exact_ids_and_set_size_suffixes() {
    let items = vec![
        api_card("Tempest Rune", "ven-r01", "Rune", None),
        api_card("Sudden Undertow", "ogn-045-298", "Spell", None),
    ];
    assert_eq!(
        pick_by_fragment(&items, "ven-r01").unwrap().name,
        "Tempest Rune"
    );
    assert_eq!(
        pick_by_fragment(&items, "ogn-045").unwrap().name,
        "Sudden Undertow"
    );
    assert!(pick_by_fragment(&items, "ogn-04").is_none());
}

#[test]
fn catalog_cards_carry_base_names() {
    let starter = api_card(
        "Master Yi - Wuju Bladesman (Starter)",
        "ogs-019-024",
        "Legend",
        Some("Master Yi Wuju Bladesman Starter"),
    );
    assert_eq!(catalog_card(&starter).name, "Master Yi - Wuju Bladesman");
    let renamed = api_card("Curator of the Sands", "ven-192-166", "Legend", None);
    assert_eq!(catalog_card(&renamed).name, "Nasus - Curator of the Sands");
    let alternate = api_card(
        "Nasus, Ascended (Alternate Art)",
        "ven-046a-166",
        "Unit",
        None,
    );
    assert_eq!(catalog_card(&alternate).name, "Nasus, Ascended");
    let kept = api_card("Teemo - Scout (GG EZ)", "opp-197b-298", "Unit", None);
    assert_eq!(catalog_card(&kept).name, "Teemo - Scout (GG EZ)");
}

#[test]
fn a_name_lookup_matches_a_print_by_its_base_name_and_prefers_the_lowest_id() {
    let items = vec![
        api_card(
            "Master Yi - Wuju Bladesman (Metal)",
            "opp-019-024",
            "Legend",
            None,
        ),
        api_card("Master Yi - Wuju Bladesman", "opp-019-024", "Legend", None),
        api_card(
            "Master Yi - Wuju Bladesman (Starter)",
            "ogs-019-024",
            "Legend",
            None,
        ),
    ];
    let hit = pick_by_name(&items, "Master Yi, Wuju Bladesman").unwrap();
    assert_eq!(hit.riftbound_id, "ogs-019-024");
    assert_eq!(hit.name, "Master Yi - Wuju Bladesman");
    let renamed = vec![
        api_card("Curator of the Sands", "ven-192-166", "Legend", None),
        api_card(
            "Nasus - Curator of the Sands",
            "ven-145-166",
            "Legend",
            None,
        ),
    ];
    let hit = pick_by_name(&renamed, "Nasus - Curator of the Sands").unwrap();
    assert_eq!(hit.riftbound_id, "ven-145-166");
    assert_eq!(hit.name, "Nasus - Curator of the Sands");
}

#[test]
fn exact_name_ties_break_by_id_whatever_the_api_order() {
    let unl = api_card("Lillia - Protector of Dreams", "unl-058-219", "Unit", None);
    let opp = api_card("Lillia - Protector of Dreams", "opp-058-219", "Unit", None);
    let first =
        pick_by_name(&[unl.clone(), opp.clone()], "Lillia - Protector of Dreams").unwrap();
    let second = pick_by_name(&[opp, unl], "Lillia - Protector of Dreams").unwrap();
    assert_eq!(first.riftbound_id, "opp-058-219");
    assert_eq!(first, second);
}

#[test]
fn fragments_prefer_the_exact_id_and_refuse_ambiguity() {
    let items = vec![
        api_card("Base", "ogn-007-298", "Unit", None),
        api_card("Base again", "ogn-007-298", "Unit", None),
        api_card("Alternate", "ogn-007a-298", "Unit", None),
    ];
    assert_eq!(
        pick_by_fragment(&items, "OGN-007-298").unwrap().name,
        "Base"
    );
    assert_eq!(pick_by_fragment(&items, "ogn-007").unwrap().name, "Base");
    let clashing = vec![
        api_card("One", "ogn-007-298", "Unit", None),
        api_card("Two", "ogn-007-299", "Unit", None),
    ];
    assert!(pick_by_fragment(&clashing, "ogn-007").is_none());
}

#[test]
fn requests_name_their_escaped_path() {
    let name = request_for(&Identifier::Name("Lillia - Bashful Bloom".into()));
    assert_eq!(name, Request::Fuzzy("Lillia - Bashful Bloom".into()));
    assert_eq!(
        request_path(&name),
        "/cards/name?fuzzy=Lillia%20-%20Bashful%20Bloom"
    );
    let code = request_for(&Identifier::Code(CardCode::parse("UNL-230").unwrap()));
    assert_eq!(request_path(&code), "/cards/riftbound/unl-230");
    assert_eq!(page_path(3), "/cards?size=100&page=3");
    assert_eq!(base_of("http://riftcodex.test//"), "http://riftcodex.test");
}

#[test]
fn a_missing_card_is_no_failure_and_other_failures_name_the_url() {
    let missing = GaveUp {
        error: TransportError::Status(404),
        attempts: 1,
    };
    assert!(failure_of("http://x.test/cards/riftbound/unl-999", &missing).is_none());
    let reset = GaveUp {
        error: TransportError::Failed("the fetch failed: connection reset".into()),
        attempts: 3,
    };
    let error = failure_of("http://riftcodex.test/cards/riftbound/unl-230", &reset).unwrap();
    assert_eq!(
        error.message(),
        "card lookup failed: http://riftcodex.test/cards/riftbound/unl-230: the fetch failed: connection reset (after 3 attempts)"
    );
}

#[test]
fn answers_pick_by_name_or_by_fragment() {
    let items = vec![
        api_card("Lillia - Bashful Bloom (Signature)", "unl-230*-219", "Legend", None),
        api_card("Lillia - Bashful Bloom (Overnumbered)", "unl-230-219", "Legend", None),
    ];
    let code = Identifier::Code(CardCode::parse("UNL-230").unwrap());
    assert_eq!(answer(&code, &items).unwrap().riftbound_id, "unl-230-219");
    let signed = Identifier::Code(CardCode::parse("UNL-230s").unwrap());
    assert_eq!(answer(&signed, &items).unwrap().riftbound_id, "unl-230*-219");
    assert_eq!(small(Some(300)), None);
    assert_eq!(small(Some(7)), Some(7));
}
