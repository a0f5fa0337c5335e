use agni::riftbound::card_code::CardCode;
use agni::riftbound::deck_code::{
    base32_decode, base32_encode, decode, encode, encode_as, CodeEntry, DeckCodeError, DecodedDeck,
};

fn entry(code: &str, count: u32) -> CodeEntry {
    CodeEntry {
        code: CardCode::parse(code).unwrap(),
        count,
    }
}

fn sorted(mut entries: Vec<CodeEntry>) -> Vec<CodeEntry> {
    entries.sort();
    entries
}

fn bytes_of(code: &str) -> Vec<u8> {
    let chars: Vec<char> = code.chars().collect();
    base32_decode(&chars).unwrap()
}

fn assert_round_trip(version: u8, deck: &DecodedDeck) {
    let code = encode_as(version, deck).unwrap();
    let decoded = decode(&code).unwrap();
    assert_eq!(encode_as(version, &decoded).unwrap(), code, "v{version}");
    assert_eq!(sorted(decoded.main), sorted(deck.main.clone()), "v{version}");
    assert_eq!(
        sorted(decoded.sideboard),
        sorted(deck.sideboard.clone()),
        "v{version}"
    );
    assert_eq!(decoded.champion, deck.champion, "v{version}");
}

fn plain_deck() -> DecodedDeck {
    DecodedDeck {
        main: vec![
            entry("OGN-007", 3),
            entry("OGN-101", 3),
            entry("OGN-045", 2),
            entry("SFD-033", 4),
            entry("OGN-042", 12),
            entry("OGN-260", 1),
            entry("UNL-116a", 1),
        ],
        sideboard: Vec::new(),
        champion: None,
    }
}

#[test]
fn decode_refuses_malformed_codes() {
    assert!(matches!(
        decode("CEAA!AAA"),
        Err(DeckCodeError::BadCharacter('!'))
    ));
    assert!(matches!(decode(""), Err(DeckCodeError::Truncated)));
    assert!(matches!(
        decode(&base32_encode(&[0x21])),
        Err(DeckCodeError::BadFormat(2))
    ));
    assert!(matches!(
        decode(&base32_encode(&[0x16])),
        Err(DeckCodeError::BadVersion(6))
    ));
    assert!(matches!(
        decode(&base32_encode(&[0x13, 1])),
        Err(DeckCodeError::Truncated)
    ));
    assert!(matches!(
        decode(&base32_encode(&[0x15, 9])),
        Err(DeckCodeError::BadDeckFlag(9))
    ));
    let bad_set = base32_encode(&[0x11, 1, 1, 9, 0, 5, 0, 0, 0, 0, 0, 0, 0, 0, 0, 0, 0]);
    assert!(matches!(decode(&bad_set), Err(DeckCodeError::BadSet(9))));
}

#[test]
fn v1_round_trips_a_main_deck_only() {
    let deck = DecodedDeck {
        main: plain_deck().main,
        sideboard: Vec::new(),
        champion: None,
    };
    assert_round_trip(1, &deck);
}

#[test]
fn v2_round_trips_a_sideboard() {
    let deck = DecodedDeck {
        main: plain_deck().main,
        sideboard: vec![entry("OGN-088", 3), entry("SFD-100", 1)],
        champion: None,
    };
    assert_round_trip(2, &deck);
}

#[test]
fn v3_round_trips_a_chosen_champion() {
    let deck = DecodedDeck {
        main: plain_deck().main,
        sideboard: vec![entry("UNL-039", 2)],
        champion: Some(CardCode::parse("OGN-007").unwrap()),
    };
    assert_round_trip(3, &deck);
}

#[test]
fn v4_round_trips_rune_numbered_cards() {
    let deck = DecodedDeck {
        main: vec![
            entry("OGN-007", 3),
            entry("VEN-R01", 8),
            entry("VEN-R03", 4),
            entry("OGN-260", 1),
        ],
        sideboard: vec![entry("OGN-088", 3)],
        champion: Some(CardCode::parse("OGN-007").unwrap()),
    };
    assert_round_trip(4, &deck);
}

#[test]
fn v5_round_trips_special_numbers_and_high_counts() {
    let deck = DecodedDeck {
        main: vec![
            entry("UNL-SP3", 1),
            entry("OGN-118", 27),
            entry("VEN-R01", 12),
            entry("OGN-007", 3),
        ],
        sideboard: vec![entry("UNL-SP7", 2), entry("OGN-088", 3)],
        champion: Some(CardCode::parse("UNL-SP3").unwrap()),
    };
    assert_round_trip(5, &deck);
}

#[test]
fn v5_all_normal_decks_skip_the_per_card_flag() {
    let deck = DecodedDeck {
        main: vec![entry("OGN-118", 27), entry("OGN-007", 3)],
        sideboard: Vec::new(),
        champion: Some(CardCode::parse("OGN-007").unwrap()),
    };
    let code = encode_as(5, &deck).unwrap();
    let bytes = bytes_of(&code);
    assert_eq!(bytes[1], 0);
    assert_round_trip(5, &deck);
}

#[test]
fn every_variant_survives_every_supporting_version() {
    let deck = DecodedDeck {
        main: vec![
            entry("OGN-007", 2),
            entry("OGN-007a", 2),
            entry("OGN-007s", 2),
            entry("OGN-007b", 2),
        ],
        sideboard: Vec::new(),
        champion: None,
    };
    for version in 1..=5 {
        assert_round_trip(version, &deck);
    }
}

#[test]
fn auto_encode_picks_the_smallest_sufficient_version() {
    let plain = encode(&plain_deck()).unwrap();
    assert_eq!(bytes_of(&plain)[0] & 0x0f, 3);
    let runes = DecodedDeck {
        main: vec![entry("VEN-R01", 3)],
        sideboard: Vec::new(),
        champion: None,
    };
    assert_eq!(bytes_of(&encode(&runes).unwrap())[0] & 0x0f, 4);
    let special = DecodedDeck {
        main: vec![entry("UNL-SP3", 1)],
        sideboard: Vec::new(),
        champion: None,
    };
    assert_eq!(bytes_of(&encode(&special).unwrap())[0] & 0x0f, 5);
    let swarm = DecodedDeck {
        main: vec![entry("OGN-118", 30)],
        sideboard: Vec::new(),
        champion: None,
    };
    assert_eq!(bytes_of(&encode(&swarm).unwrap())[0] & 0x0f, 5);
}

#[test]
fn duplicate_entries_aggregate_before_encoding() {
    let deck = DecodedDeck {
        main: vec![entry("OGN-007", 2), entry("OGN-007", 1)],
        sideboard: Vec::new(),
        champion: None,
    };
    let decoded = decode(&encode(&deck).unwrap()).unwrap();
    assert_eq!(decoded.main, vec![entry("OGN-007", 3)]);
}

#[test]
fn encode_refuses_content_its_version_cannot_carry() {
    let side = DecodedDeck {
        main: vec![entry("OGN-007", 1)],
        sideboard: vec![entry("OGN-088", 1)],
        champion: None,
    };
    assert!(matches!(
        encode_as(1, &side),
        Err(DeckCodeError::NeedsNewerVersion(1, _))
    ));
    let champion = DecodedDeck {
        main: vec![entry("OGN-007", 1)],
        sideboard: Vec::new(),
        champion: Some(CardCode::parse("OGN-007").unwrap()),
    };
    assert!(matches!(
        encode_as(2, &champion),
        Err(DeckCodeError::NeedsNewerVersion(2, _))
    ));
    let runes = DecodedDeck {
        main: vec![entry("VEN-R01", 1)],
        sideboard: Vec::new(),
        champion: None,
    };
    assert!(matches!(
        encode_as(3, &runes),
        Err(DeckCodeError::NeedsNewerVersion(3, _))
    ));
    let special = DecodedDeck {
        main: vec![entry("UNL-SP1", 1)],
        sideboard: Vec::new(),
        champion: None,
    };
    assert!(matches!(
        encode_as(4, &special),
        Err(DeckCodeError::NeedsNewerVersion(4, _))
    ));
    let swarm = DecodedDeck {
        main: vec![entry("OGN-118", 13)],
        sideboard: Vec::new(),
        champion: None,
    };
    assert!(matches!(
        encode_as(4, &swarm),
        Err(DeckCodeError::NeedsNewerVersion(4, _))
    ));
    let zero = DecodedDeck {
        main: vec![entry("OGN-118", 0)],
        sideboard: Vec::new(),
        champion: None,
    };
    assert!(matches!(
        encode_as(3, &zero),
        Err(DeckCodeError::BadCount(_, 0))
    ));
}

#[test]
fn decode_accepts_lowercase_and_surrounding_whitespace() {
    let code = encode(&plain_deck()).unwrap();
    let sloppy = format!("  {}  ", code.to_ascii_lowercase());
    assert_eq!(decode(&sloppy).unwrap(), decode(&code).unwrap());
}

#[test]
fn base32_bytes_come_back_as_written() {
    let bytes: Vec<u8> = (0..=255u8).collect();
    assert_eq!(bytes_of(&base32_encode(&bytes)), bytes);
    assert_eq!(base32_encode(&[0x13]), "CM");
    assert_eq!(bytes_of("CM"), vec![0x13]);
}
