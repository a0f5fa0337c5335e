use agni::naming::{encode_component, normalize_name};

#[test]
fn query_components_encode_the_awkward_names() {
    assert_eq!(
        encode_component("Serelith, Tidebound Oracle"),
        "Serelith%2C%20Tidebound%20Oracle"
    );
    assert_eq!(encode_component("unl-229*"), "unl-229%2A");
    assert_eq!(encode_component("Thornspire"), "Thornspire");
    assert_eq!(
        encode_component("3 Emberwing Scout\n"),
        "3%20Emberwing%20Scout%0A"
    );
}

#[test]
fn punctuation_and_case_normalize_away() {
    assert_eq!(
        normalize_name("Serelith, Tidebound-Oracle!"),
        "serelith tidebound oracle"
    );
    assert_eq!(normalize_name("  spaced   out  "), "spaced out");
    assert_eq!(normalize_name(""), "");
}

#[test]
fn non_ascii_letters_encode_as_their_utf8_bytes() {
    assert_eq!(encode_component("Kai'Sa é"), "Kai%27Sa%20%C3%A9");
    assert_eq!(encode_component("a-b_c.d~e"), "a-b_c.d~e");
}

#[test]
fn normalizing_twice_changes_nothing() {
    let once = normalize_name("  Yorick, Keeper of the 1000 Graves!! ");
    assert_eq!(normalize_name(&once), once);
}

#[test]
fn catalogs_and_saved_decks_are_named_by_game() {
    assert_eq!(agni::cards::catalog_name("riftbound"), "cards/riftbound");
    assert_eq!(agni::deck::history::collection_name("mtg"), "decks/mtg");
}
