use agni::abysswalker::{AbyssWalkerDeck, CardName, GAME};

#[test]
fn a_deck_holds_cards() {
    let deck = AbyssWalkerDeck {
        cards: vec![CardName("Walker".into())],
    };
    assert_eq!(deck.cards.len(), 1);
}

#[test]
fn the_game_is_named_for_the_store() {
    assert_eq!(GAME, "abyss-walker");
}
