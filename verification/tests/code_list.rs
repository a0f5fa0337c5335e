use agni::riftbound::code_list::{
    from_tts, looks_like_code_list, looks_like_tts_list, parse_code_list, CodeListError,
};
use agni::riftbound::Identifier;

#[test]
fn tokens_carry_code_and_count() {
    let deck = parse_code_list("OGN-045-2 OGN-R05-12 UNL-116a-3 OGN-260").unwrap();
    assert_eq!(deck.entries.len(), 4);
    let render: Vec<(String, u32)> = deck
        .entries
        .iter()
        .map(|entry| match &entry.identifier {
            Identifier::Code(code) => (code.to_text(), entry.count),
            other => panic!("expected a code, got {other:?}"),
        })
        .collect();
    assert_eq!(
        render,
        vec![
            ("OGN-045".to_string(), 2),
            ("OGN-R05".to_string(), 12),
            ("UNL-116a".to_string(), 3),
            ("OGN-260".to_string(), 1),
        ]
    );
}

#[test]
fn lists_split_across_lines_and_extra_spaces() {
    let deck = parse_code_list("OGN-045-2\n  OGN-046-1\tOGN-047-3").unwrap();
    assert_eq!(deck.entries.len(), 3);
}

#[test]
fn bad_tokens_are_named_in_the_error() {
    assert_eq!(
        parse_code_list("OGN-045-2 nonsense"),
        Err(CodeListError::BadToken("nonsense".into()))
    );
    assert_eq!(
        parse_code_list("OGN-045-0"),
        Err(CodeListError::ZeroCount("OGN-045-0".into()))
    );
    assert_eq!(
        parse_code_list("OGN-045-2-9"),
        Err(CodeListError::BadToken("OGN-045-2-9".into()))
    );
    assert_eq!(parse_code_list("  "), Err(CodeListError::Empty));
}

#[test]
fn detection_accepts_only_full_code_lists() {
    assert!(looks_like_code_list("OGN-045-2 OGN-046-1"));
    assert!(!looks_like_code_list("3 Emberwing Scout"));
    assert!(!looks_like_code_list("OGN-045-2 and friends"));
    assert!(!looks_like_code_list(""));
}

#[test]
fn a_tabletop_simulator_list_counts_its_repeats() {
    let tts = "UNL-189-2 UNL-082-1 OGN-043-1 OGN-043-1 UNL-080-1 SFD-216-1 OGN-042-2 OGN-042-2";
    assert!(looks_like_tts_list(tts));
    assert!(!looks_like_tts_list("OGN-045-2 OGN-046-1"));
    assert!(!looks_like_tts_list("UNL-189-2"));
    assert_eq!(
        from_tts(tts),
        "UNL-189 UNL-082 OGN-043-2 UNL-080 SFD-216 OGN-042-2"
    );
}
