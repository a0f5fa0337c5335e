use agni::table::{Card, CardFace, CardId, Intent, PlayerId, Table, Zone};

const ME: PlayerId = PlayerId(0);
const THEM: PlayerId = PlayerId(2);

fn table_of(zones: &[Zone]) -> (Table, Vec<CardId>) {
    let mut t = Table::new();
    let ids = zones
        .iter()
        .enumerate()
        .map(|(i, &z)| t.add(ME, z, &format!("card {i}"), [128; 3]))
        .collect();
    (t, ids)
}

fn order(t: &Table, seat: PlayerId, zone: Zone) -> Vec<CardId> {
    t.in_area(seat, zone).iter().map(|c| c.id).collect()
}

#[test]
fn moving_a_card_changes_its_zone() {
    let (mut t, ids) = table_of(&[Zone::Hand]);
    assert!(t.apply(Intent::MoveCard {
        card: ids[0],
        to: Zone::Board,
        seat: ME,
        index: 0
    }));
    assert_eq!(t.get(ids[0]).unwrap().zone, Zone::Board);
}

#[test]
fn moving_a_card_to_its_current_position_is_not_a_change() {
    let (mut t, ids) = table_of(&[Zone::Hand, Zone::Hand]);
    assert!(!t.apply(Intent::MoveCard {
        card: ids[0],
        to: Zone::Hand,
        seat: ME,
        index: 0
    }));
    assert_eq!(order(&t, ME, Zone::Hand), ids);
}

#[test]
fn reordering_within_a_zone() {
    let (mut t, ids) = table_of(&[Zone::Hand, Zone::Hand, Zone::Hand]);
    assert!(t.apply(Intent::MoveCard {
        card: ids[0],
        to: Zone::Hand,
        seat: ME,
        index: 2
    }));
    assert_eq!(order(&t, ME, Zone::Hand), vec![ids[1], ids[2], ids[0]]);
}

#[test]
fn playing_to_another_seat_keeps_ownership() {
    let (mut t, ids) = table_of(&[Zone::Hand]);
    assert!(t.apply(Intent::MoveCard {
        card: ids[0],
        to: Zone::Board,
        seat: THEM,
        index: 0
    }));
    let card = t.get(ids[0]).unwrap();
    assert_eq!(card.owner, ME);
    assert_eq!(card.seat, THEM);
    assert_eq!(order(&t, THEM, Zone::Board), vec![ids[0]]);
    assert!(order(&t, ME, Zone::Board).is_empty());
}

#[test]
fn an_index_past_the_end_appends() {
    let (mut t, ids) = table_of(&[Zone::Hand, Zone::Hand, Zone::Board]);
    assert!(t.apply(Intent::MoveCard {
        card: ids[2],
        to: Zone::Hand,
        seat: ME,
        index: 99
    }));
    assert_eq!(order(&t, ME, Zone::Hand), vec![ids[0], ids[1], ids[2]]);
}

#[test]
fn inserting_a_card_with_an_explicit_id_keeps_fresh_ids_fresh() {
    let mut t = Table::new();
    let inserted = Card {
        id: CardId(5),
        owner: ME,
        seat: ME,
        zone: Zone::Hand,
        face: CardFace::named("wired"),
    };
    assert!(t.insert_card(inserted.clone()));
    assert!(!t.insert_card(inserted));
    let next = t.add(ME, Zone::Hand, "fresh", [128; 3]);
    assert_eq!(next, CardId(6));
    assert_eq!(t.len(), 2);
}

#[test]
fn changes_predicts_apply_without_mutating() {
    let (t, ids) = table_of(&[Zone::Hand, Zone::Hand, Zone::Board, Zone::Board]);
    for &card in &ids {
        for to in [Zone::Hand, Zone::Board] {
            for seat in [ME, THEM] {
                for index in 0..5 {
                    let intent = Intent::MoveCard {
                        card,
                        to,
                        seat,
                        index,
                    };
                    let mut mutated = t.clone();
                    assert_eq!(t.changes(intent), mutated.apply(intent));
                    if !t.changes(intent) {
                        assert_eq!(mutated, t);
                    }
                }
            }
        }
    }
}

#[test]
fn ids_stay_stable_across_moves() {
    let (mut t, ids) = table_of(&[Zone::Hand, Zone::Hand]);
    t.apply(Intent::MoveCard {
        card: ids[0],
        to: Zone::Board,
        seat: ME,
        index: 0,
    });
    let back = t.add(ME, Zone::Hand, "new", [128; 3]);
    assert_ne!(back, ids[0]);
    assert_ne!(back, ids[1]);
}

#[test]
fn a_hidden_face_is_the_default_and_carries_no_name() {
    assert!(CardFace::hidden().is_hidden());
    assert_eq!(CardFace::hidden(), CardFace::default());
    assert!(!CardFace::named("Emberwing Scout").is_hidden());
}

#[test]
fn a_move_that_changes_nothing_leaves_the_table_as_it_was() {
    let (mut t, ids) = table_of(&[Zone::Hand, Zone::Board]);
    let before = t.clone();
    assert!(!t.apply(Intent::MoveCard {
        card: ids[1],
        to: Zone::Board,
        seat: ME,
        index: 0,
    }));
    assert_eq!(t, before);
    assert!(!t.apply(Intent::MoveCard {
        card: CardId(77),
        to: Zone::Board,
        seat: ME,
        index: 0,
    }));
    assert_eq!(t, before);
}

#[test]
fn cleared_tables_keep_issuing_fresh_ids() {
    let (mut t, ids) = table_of(&[Zone::Hand, Zone::Hand]);
    t.clear();
    assert!(t.is_empty());
    let next = t.add(ME, Zone::Hand, "again", [1, 2, 3]);
    assert!(!ids.contains(&next));
}

#[test]
fn a_card_changed_in_place_stays_in_its_slot() {
    let (mut t, ids) = table_of(&[Zone::Hand, Zone::Board, Zone::Hand]);
    {
        let card = t.get_mut(ids[1]).unwrap();
        card.face = CardFace::named("Renamed");
        card.seat = THEM;
    }
    assert_eq!(t.cards()[1].face.name, "Renamed");
    assert_eq!(t.cards()[1].seat, THEM);
    assert_eq!(t.cards()[0].face.name, "card 0");
    assert!(t.get_mut(CardId(99)).is_none());
}

#[test]
fn retain_keeps_the_answered_cards_in_order() {
    let (mut t, ids) = table_of(&[Zone::Hand, Zone::Board, Zone::Hand, Zone::Board]);
    t.retain(|card| card.zone == Zone::Hand);
    let left: Vec<CardId> = t.cards().iter().map(|c| c.id).collect();
    assert_eq!(left, vec![ids[0], ids[2]]);
    let fresh = t.add(ME, Zone::Board, "fresh", [0; 3]);
    assert!(!ids.contains(&fresh));
}

#[test]
fn a_face_changed_in_place_lands_on_its_card_only() {
    let (mut t, ids) = table_of(&[Zone::Hand, Zone::Board]);
    {
        let face = t.face_mut(1);
        face.foil = true;
        face.name = "renamed".to_string();
    }
    let changed = t.get(ids[1]).unwrap();
    assert!(changed.face.foil);
    assert_eq!(changed.face.name, "renamed");
    assert_eq!(changed.zone, Zone::Board);
    let kept = t.get(ids[0]).unwrap();
    assert!(!kept.face.foil);
    assert_eq!(kept.face.name, "card 0");
}

#[test]
fn an_added_card_has_a_plain_face() {
    let (t, ids) = table_of(&[Zone::Hand]);
    let card = t.get(ids[0]).unwrap();
    assert!(!card.face.foil);
    assert_eq!(card.face.kind, None);
    assert_eq!(card.face.energy, None);
    assert_eq!(card.face.power, None);
    assert_eq!(card.face.might, None);
    assert!(card.face.domain.is_empty());
}
