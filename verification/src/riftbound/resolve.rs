//! Riftbound names after lookup: print suffixes folded away and reprint
//! aliases applied, so a deck lists each card under its base name.
use vstd::prelude::*;
use crate::riftbound::card_code::{code_of_id, id_fragment_text, CardCode};
use crate::riftbound::resolved::{zone_view, CardView, DeckEntry, ResolvedCard, ResolvedDeck, DeckView};
use crate::text::{
    chars_of, ends, is, rfind, rfind_in, same, slice, string_of, trim_end, trim_end_of,
};

verus! {

/// Whether `s` is one of the suffixes a print adds to a name in brackets.
pub open spec fn print_suffix(s: Seq<char>) -> bool {
    s == "Starter"@ || s == "Alternate Art"@ || s == "Overnumbered"@ || s == "Signature"@
        || s == "Metal"@ || s == "Promo"@ || s == "Prerelease"@ || s == "Foil"@
        || s == "Ultimate"@ || s == "Launch Exclusive"@
}

fn is_print_suffix(s: &[char]) -> (r: bool)
    ensures
        r == print_suffix(s@),
{
    is(s, "Starter") || is(s, "Alternate Art") || is(s, "Overnumbered") || is(s, "Signature")
        || is(s, "Metal") || is(s, "Promo") || is(s, "Prerelease") || is(s, "Foil")
        || is(s, "Ultimate") || is(s, "Launch Exclusive")
}

/// A name without a trailing ` (Print)` suffix, trailing space trimmed.
pub open spec fn base_name_of(name: Seq<char>) -> Seq<char> {
    let trimmed = trim_end(name);
    if trimmed.len() > 0 && trimmed.last() == ')' {
        let stem = trimmed.drop_last();
        match rfind(stem, " ("@) {
            Some(open) => if print_suffix(stem.skip(open + 2)) {
                trim_end(stem.take(open))
            } else {
                trimmed
            },
            None => trimmed,
        }
    } else {
        trimmed
    }
}

/// The name a print shares with its base card: `Emberwing Scout
/// (Alternate Art)` is `Emberwing Scout`.
pub fn base_name(name: &str) -> (r: String)
    ensures
        r@ == base_name_of(name@),
{
    proof {
        reveal_strlit(" (");
    }
    let trimmed = trim_end_of(chars_of(name).as_slice());
    let n = trimmed.len();
    if n > 0 && trimmed[n - 1] == ')' {
        let stem = slice(trimmed.as_slice(), 0, n - 1);
        assert(stem@ =~= trimmed@.drop_last());
        let sep = chars_of(" (");
        match rfind_in(stem.as_slice(), sep.as_slice()) {
            Some(open) => {
                proof {
                    crate::text::lemma_rfind_upto_bounds(stem@, sep@, stem@.len() - sep@.len());
                }
                let sl = stem.len();
                let suffix = slice(stem.as_slice(), open + 2, sl);
                assert(suffix@ =~= stem@.skip(open + 2));
                if is_print_suffix(suffix.as_slice()) {
                    let head = slice(stem.as_slice(), 0, open);
                    assert(head@ =~= stem@.take(open as int));
                    string_of(trim_end_of(head.as_slice()).as_slice())
                } else {
                    string_of(trimmed.as_slice())
                }
            },
            None => string_of(trimmed.as_slice()),
        }
    } else {
        string_of(trimmed.as_slice())
    }
}

/// The reprints listed under another card's name: catalog id and name.
pub open spec fn alias_entry(i: int) -> (Seq<char>, Seq<char>) {
    if i == 0 {
        ("ven-145-166"@, "Nasus - Curator of the Sands"@)
    } else if i == 1 {
        ("ven-167-166"@, "Vi - Destructive"@)
    } else if i == 2 {
        ("ven-168-166"@, "Jinx - Demolitionist"@)
    } else if i == 3 {
        ("ven-172-166"@, "Draven - Showboat"@)
    } else if i == 4 {
        ("ven-174-166"@, "Irelia - Fervent"@)
    } else if i == 5 {
        ("ven-175-166"@, "Jayce - Man of Progress"@)
    } else if i == 6 {
        ("ven-176-166"@, "Viktor - Innovator"@)
    } else if i == 7 {
        ("ven-179-166"@, "Rengar - Trophy Hunter"@)
    } else if i == 8 {
        ("ven-180-166"@, "Kha'Zix - Evolving Hunter"@)
    } else if i == 9 {
        ("ven-183-166"@, "Diana - No Longer Human"@)
    } else if i == 10 {
        ("ven-184-166"@, "Leona - Determined"@)
    } else if i == 11 {
        ("ven-192-166"@, "Nasus - Curator of the Sands"@)
    } else if i == 12 {
        ("ven-sp1-006"@, "Kai'Sa - Survivor"@)
    } else if i == 13 {
        ("ven-sp2-006"@, "Sona - Harmonious"@)
    } else if i == 14 {
        ("ven-sp3-006"@, "Ahri - Inquisitive"@)
    } else if i == 15 {
        ("ven-sp4-006"@, "Sett - Brawler"@)
    } else if i == 16 {
        ("ven-sp5-006"@, "Ezreal - Prodigy"@)
    } else {
        ("ven-sp6-006"@, "Lux - Crownguard"@)
    }
}

pub const ALIAS_COUNT: usize = 18usize;

fn alias_at(i: usize) -> (r: (&'static str, &'static str))
    requires
        i < ALIAS_COUNT,
    ensures
        (r.0@, r.1@) == alias_entry(i as int),
{
    match i {
        0 => ("ven-145-166", "Nasus - Curator of the Sands"),
        1 => ("ven-167-166", "Vi - Destructive"),
        2 => ("ven-168-166", "Jinx - Demolitionist"),
        3 => ("ven-172-166", "Draven - Showboat"),
        4 => ("ven-174-166", "Irelia - Fervent"),
        5 => ("ven-175-166", "Jayce - Man of Progress"),
        6 => ("ven-176-166", "Viktor - Innovator"),
        7 => ("ven-179-166", "Rengar - Trophy Hunter"),
        8 => ("ven-180-166", "Kha'Zix - Evolving Hunter"),
        9 => ("ven-183-166", "Diana - No Longer Human"),
        10 => ("ven-184-166", "Leona - Determined"),
        11 => ("ven-192-166", "Nasus - Curator of the Sands"),
        12 => ("ven-sp1-006", "Kai'Sa - Survivor"),
        13 => ("ven-sp2-006", "Sona - Harmonious"),
        14 => ("ven-sp3-006", "Ahri - Inquisitive"),
        15 => ("ven-sp4-006", "Sett - Brawler"),
        16 => ("ven-sp5-006", "Ezreal - Prodigy"),
        _ => ("ven-sp6-006", "Lux - Crownguard"),
    }
}

/// The first alias, from the `i`-th on, whose print has the id fragment
/// `fragment`.
pub open spec fn alias_from(fragment: Seq<char>, i: int) -> Option<Seq<char>>
    decreases 18 - i,
{
    if i < 0 || i >= 18 {
        None
    } else {
        match code_of_id(alias_entry(i).0) {
            Ok(c) => if id_fragment_text(c) == fragment {
                Some(alias_entry(i).1)
            } else {
                alias_from(fragment, i + 1)
            },
            Err(_) => alias_from(fragment, i + 1),
        }
    }
}

/// The name a reprint is listed under, when it is one of the aliased
/// prints (any art variant of them).
pub open spec fn alias_spec(id: Seq<char>) -> Option<Seq<char>> {
    match code_of_id(id) {
        Ok(c) => alias_from(id_fragment_text(c), 0),
        Err(_) => None,
    }
}

/// The name a reprint is listed under, if its print is aliased.
pub fn alias_of(riftbound_id: &str) -> (r: Option<&'static str>)
    ensures
        match alias_spec(riftbound_id@) {
            Some(name) => r matches Some(s) && s@ == name,
            None => r is None,
        },
{
    let fragment = match CardCode::from_riftbound_id(riftbound_id) {
        Ok(code) => code.id_fragment_chars(),
        Err(_) => {
            return None;
        },
    };
    let mut i: usize = 0;
    while i < ALIAS_COUNT
        invariant
            i <= ALIAS_COUNT,
            alias_spec(riftbound_id@) == alias_from(fragment@, i as int),
        decreases ALIAS_COUNT - i,
    {
        let (print, name) = alias_at(i);
        match CardCode::from_riftbound_id(print) {
            Ok(code) => {
                if same(code.id_fragment_chars().as_slice(), fragment.as_slice()) {
                    return Some(name);
                }
            },
            Err(_) => {},
        }
        i = i + 1;
    }
    None
}

/// The name a card is listed under: its alias, else its base name.
pub open spec fn canonical(id: Seq<char>, name: Seq<char>) -> Seq<char> {
    match alias_spec(id) {
        Some(alias) => alias,
        None => base_name_of(name),
    }
}

pub fn canonical_name(riftbound_id: &str, name: &str) -> (r: String)
    ensures
        r@ == canonical(riftbound_id@, name@),
{
    match alias_of(riftbound_id) {
        Some(alias) => alias.to_owned(),
        None => base_name(name),
    }
}

/// A card with its name made canonical.
pub open spec fn folded(c: CardView) -> CardView {
    (canonical(c.1, c.0), c.1, c.2, c.3, c.4, c.5, c.6, c.7, c.8, c.9)
}

pub open spec fn folded_zone(z: Seq<(CardView, u32)>) -> Seq<(CardView, u32)> {
    z.map_values(|e: (CardView, u32)| (folded(e.0), e.1))
}

pub open spec fn folded_opt(o: Option<CardView>) -> Option<CardView> {
    match o {
        Some(c) => Some(folded(c)),
        None => None,
    }
}

fn fold_card(card: &mut ResolvedCard)
    ensures
        final(card)@ == folded(old(card)@),
{
    let name = canonical_name(card.riftbound_id.as_str(), card.name.as_str());
    card.name = name;
}

fn fold_zone(zone: &mut Vec<DeckEntry>)
    ensures
        zone_view(final(zone)@) == folded_zone(zone_view(old(zone)@)),
{
    let ghost start = zone_view(zone@);
    let mut i: usize = 0;
    while i < zone.len()
        invariant
            i <= zone@.len(),
            start.len() == zone@.len(),
            start == zone_view(old(zone)@),
            forall|k: int| 0 <= k < i ==> (#[trigger] zone_view(zone@)[k]) == (folded(start[k].0), start[k].1),
            forall|k: int| i <= k < zone@.len() ==> (#[trigger] zone_view(zone@)[k]) == start[k],
        decreases zone@.len() - i,
    {
        let mut card = zone[i].card.duplicate();
        let count = zone[i].count;
        let ghost vb = zone_view(zone@);
        assert(vb[i as int] == start[i as int]);
        fold_card(&mut card);
        zone.set(i, DeckEntry { card, count });
        assert forall|k: int| 0 <= k < zone@.len() && k != i implies #[trigger] zone_view(zone@)[k] == vb[k] by {}
        assert(zone_view(zone@)[i as int] == (folded(start[i as int].0), start[i as int].1));
        i = i + 1;
    }
    assert(zone_view(zone@) =~= folded_zone(start));
}

/// Lists every card of the deck under its canonical name.
pub fn fold_names(deck: &mut ResolvedDeck)
    ensures
        final(deck)@ == (
            folded_opt(old(deck)@.0),
            folded_opt(old(deck)@.1),
            folded_zone(old(deck)@.2),
            folded_zone(old(deck)@.3),
            folded_zone(old(deck)@.4),
            folded_zone(old(deck)@.5),
        ),
{
    match &mut deck.legend {
        Some(card) => fold_card(card),
        None => {},
    }
    match &mut deck.chosen_champion {
        Some(card) => fold_card(card),
        None => {},
    }
    fold_zone(&mut deck.main_deck);
    fold_zone(&mut deck.runes);
    fold_zone(&mut deck.battlefields);
    fold_zone(&mut deck.sideboard);
}


/// The main deck with one copy of entry `i` taken out: its count lowered,
/// or the entry removed when it held one copy.
pub open spec fn taken(z: Seq<(CardView, u32)>, i: int) -> Seq<(CardView, u32)> {
    if z[i].1 > 1 {
        z.update(i, (z[i].0, (z[i].1 - 1) as u32))
    } else {
        z.remove(i)
    }
}

/// With a legend and no chosen champion, takes one copy of the first
/// main-deck card that `fits` (the test of a champion for the legend) as
/// the chosen champion, and says whether it did.
pub fn infer_champion<F: Fn(&ResolvedCard) -> bool>(deck: &mut ResolvedDeck, fits: F) -> (r: bool)
    requires
        forall|c: &ResolvedCard| #[trigger] fits.requires((c,)),
    ensures
        old(deck)@.1 is Some || old(deck)@.0 is None ==> !r && final(deck)@ == old(deck)@,
        !r ==> final(deck)@ == old(deck)@,
        r ==> exists|i: int| {
            &&& 0 <= i < old(deck).main_deck@.len()
            &&& #[trigger] call_ensures(fits, (&old(deck).main_deck@[i].card,), true)
            &&& forall|j: int| 0 <= j < i ==> call_ensures(fits, (&(#[trigger] old(deck).main_deck@[j]).card,), false)
            &&& final(deck)@ == (
                old(deck)@.0,
                Some(old(deck)@.2[i].0),
                taken(old(deck)@.2, i),
                old(deck)@.3,
                old(deck)@.4,
                old(deck)@.5,
            )
        },
        old(deck)@.1 is None && old(deck)@.0 is Some && !r ==> forall|j: int| 0 <= j < old(deck).main_deck@.len()
            ==> call_ensures(fits, (&(#[trigger] old(deck).main_deck@[j]).card,), false),
{
    if deck.chosen_champion.is_some() || deck.legend.is_none() {
        return false;
    }
    let mut i: usize = 0;
    while i < deck.main_deck.len()
        invariant
            i <= deck.main_deck@.len(),
            *deck == *old(deck),
            old(deck)@.1 is None && old(deck)@.0 is Some,
            forall|c: &ResolvedCard| #[trigger] fits.requires((c,)),
            forall|j: int| 0 <= j < i ==> call_ensures(fits, (&(#[trigger] deck.main_deck@[j]).card,), false),
        decreases deck.main_deck@.len() - i,
    {
        let hit = fits(&deck.main_deck[i].card);
        if hit {
            let ghost before = deck.main_deck@;
            let ghost z = zone_view(before);
            let card = deck.main_deck[i].card.duplicate();
            let count = deck.main_deck[i].count;
            if count > 1 {
                let kept = deck.main_deck[i].card.duplicate();
                deck.main_deck.set(i, DeckEntry { card: kept, count: count - 1 });
                assert(zone_view(deck.main_deck@) =~= taken(z, i as int));
            } else {
                deck.main_deck.remove(i);
                assert(zone_view(deck.main_deck@) =~= taken(z, i as int));
            }
            deck.chosen_champion = Some(card);
            assert(call_ensures(fits, (&old(deck).main_deck@[i as int].card,), true));
            return true;
        }
        i = i + 1;
    }
    false
}

/// A deck with every card named by its canonical name.
pub open spec fn folded_deck(d: DeckView) -> DeckView {
    (folded_opt(d.0), folded_opt(d.1), folded_zone(d.2), folded_zone(d.3), folded_zone(d.4), folded_zone(d.5))
}

/// Resolving `entries` may take the lookup from `before` to `after` and
/// give `resolution`: the game-neutral resolution, with every card named by
/// its canonical name.
pub open spec fn resolved_from<L: crate::deck::catalog::CardLookup<crate::riftbound::Riftbound>>(
    entries: Seq<crate::riftbound::ParsedEntry>,
    before: L,
    after: L,
    resolution: Resolution,
) -> bool {
    exists|found: Resolution| {
        &&& #[trigger] crate::deck::resolve::resolves(entries, before, after, found)
        &&& resolution.unresolved == found.unresolved
        &&& resolution.deck@ == folded_deck(found.deck@)
    }
}

/// Looks every entry up and seats what is found, as the game-neutral
/// resolver does, then names every card by its canonical name.
pub fn resolve<L: crate::deck::catalog::CardLookup<crate::riftbound::Riftbound>>(
    parsed: &crate::riftbound::ParsedDeck,
    cards: &mut L,
) -> (r: Result<Resolution, crate::deck::catalog::LookupError>)
    ensures
        r matches Ok(res) && resolved_from(parsed.entries@, *old(cards), *final(cards), res),
{
    let mut resolution = match crate::deck::resolve::resolve(parsed, cards) {
        Ok(resolution) => resolution,
        Err(e) => {
            return Err(e);
        },
    };
    let ghost found = resolution;
    fold_names(&mut resolution.deck);
    assert(crate::deck::resolve::resolves(parsed.entries@, *old(cards), *cards, found));
    Ok(resolution)
}

pub type Resolution = crate::deck::resolve::Resolution<crate::riftbound::Riftbound>;

} // verus!
