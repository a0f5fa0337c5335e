use agni::riftbound::card_code::{set_total, CardCode, CardNumber, SetCode, UNPUBLISHED_WIRE};

#[test]
fn card_codes_round_trip_through_display() {
    for text in ["OGN-045", "OGN-R05", "UNL-SP3", "UNL-116a", "SFD-201b"] {
        let code = CardCode::parse(text).unwrap();
        assert_eq!(code.to_text(), text);
    }
}

#[test]
fn signed_codes_accept_both_suffixes() {
    let star = CardCode::parse("UNL-229*").unwrap();
    let s = CardCode::parse("UNL-229s").unwrap();
    assert_eq!(star, s);
    assert_eq!(star.to_text(), "UNL-229s");
    assert_eq!(star.id_fragment(), "unl-229*");
}

#[test]
fn numbers_are_padded_like_the_reference() {
    let normal = CardCode::parse("OGN-7").unwrap();
    assert_eq!(normal.to_text(), "OGN-007");
    let rune = CardCode::parse("VEN-R1").unwrap();
    assert_eq!(rune.to_text(), "VEN-R01");
    let special = CardCode::parse("UNL-SP12").unwrap();
    assert_eq!(special.to_text(), "UNL-SP12");
}

#[test]
fn malformed_codes_are_refused() {
    for text in ["OGN045", "XYZ-045", "OGN-", "OGN-abc", "OGN-045z", "OGN-R"] {
        assert!(CardCode::parse(text).is_err(), "{text}");
    }
}

#[test]
fn riftbound_ids_parse_with_and_without_a_set_size() {
    let with_size = CardCode::from_riftbound_id("ogn-045-298").unwrap();
    assert_eq!(with_size.to_text(), "OGN-045");
    let rune = CardCode::from_riftbound_id("ven-r01").unwrap();
    assert_eq!(rune.to_text(), "VEN-R01");
    let signed = CardCode::from_riftbound_id("unl-229*-219").unwrap();
    assert_eq!(signed.to_text(), "UNL-229s");
    let alternate = CardCode::from_riftbound_id("unl-116a-219").unwrap();
    assert_eq!(alternate.to_text(), "UNL-116a");
}

#[test]
fn every_catalog_set_parses_and_prints_itself_back() {
    for set in SetCode::all() {
        assert_eq!(SetCode::parse(set.as_str()), Some(set));
        assert_eq!(
            SetCode::parse(&set.as_str().to_ascii_lowercase()),
            Some(set)
        );
        match set.wire() {
            Some(wire) => assert_eq!(SetCode::from_wire(wire), Some(set)),
            None => assert!(set.reprints_another_set(), "{set:?}"),
        }
    }
    assert_eq!(SetCode::from_wire(UNPUBLISHED_WIRE), None);
    assert_eq!(SetCode::Opp.to_wire(), UNPUBLISHED_WIRE);
}

#[test]
fn opp_codes_round_trip_through_every_spelling() {
    for text in [
        "OPP-083", "OPP-SP1", "OPP-R01", "OPP-118a", "PR-246b", "JDG-087",
    ] {
        let code = CardCode::parse(text).unwrap();
        assert_eq!(code.to_text(), text);
        assert_eq!(CardCode::parse(&code.to_text()).unwrap(), code);
    }
    let opp = CardCode::from_riftbound_id("opp-083-298").unwrap();
    assert_eq!(opp.set, SetCode::Opp);
    assert_eq!(opp.to_text(), "OPP-083");
    assert_eq!(opp.id_fragment(), "opp-083");
    assert_eq!(CardCode::from_riftbound_id("OPP-083").unwrap(), opp);
    assert_eq!(CardCode::from_riftbound_id("opp-083").unwrap(), opp);
    assert_eq!(
        CardCode::from_riftbound_id("opp-sp1").unwrap().number,
        CardNumber::Special(1)
    );
}

#[test]
fn reprint_sets_fold_to_the_base_print_their_total_names() {
    assert_eq!(
        CardCode::base_print_of_id("opp-083-298").unwrap().to_text(),
        "OGN-083"
    );
    assert_eq!(
        CardCode::base_print_of_id("opp-019-024").unwrap().to_text(),
        "OGS-019"
    );
    assert_eq!(
        CardCode::base_print_of_id("opp-118a-221").unwrap().to_text(),
        "SFD-118a"
    );
    assert_eq!(
        CardCode::base_print_of_id("opp-058-219").unwrap().to_text(),
        "UNL-058"
    );
    assert_eq!(
        CardCode::base_print_of_id("pr-202-298").unwrap().to_text(),
        "OGN-202"
    );
    assert_eq!(
        CardCode::base_print_of_id("jdg-087-219").unwrap().to_text(),
        "UNL-087"
    );
    let bare = CardCode::parse("OPP-083").unwrap();
    assert_eq!(bare.base_print(None), bare);
    assert_eq!(bare.base_print(Some(7)), bare);
    let already_base = CardCode::from_riftbound_id("ven-192-166").unwrap();
    assert_eq!(already_base.base_print(Some(298)), already_base);
    assert_eq!(set_total("opp-083-298"), Some(298));
    assert_eq!(set_total("unl-229*-219"), Some(219));
    assert_eq!(set_total("ven-r01"), None);
    assert_eq!(set_total("OPP-083"), None);
}

#[test]
fn ordering_matches_the_reference_grouping_sort() {
    let mut numbers = vec![
        CardNumber::Special(3),
        CardNumber::Rune(5),
        CardNumber::Normal(1000),
        CardNumber::Normal(7),
    ];
    numbers.sort();
    assert_eq!(
        numbers,
        vec![
            CardNumber::Normal(7),
            CardNumber::Normal(1000),
            CardNumber::Rune(5),
            CardNumber::Special(3),
        ]
    );
}

#[test]
fn printed_codes_read_back_as_the_same_code() {
    for text in ["OGN-001", "VEN-R12", "UNL-SP7", "SFD-033b", "UNL-230s", "PR-246a"] {
        let code = CardCode::parse(text).unwrap();
        assert_eq!(CardCode::parse(&code.to_text()).unwrap(), code);
        assert_eq!(CardCode::from_riftbound_id(&code.id_fragment()).unwrap(), code);
    }
}
