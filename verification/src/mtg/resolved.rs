//! A resolved Magic deck: the commander and the cards of each zone.
use vstd::prelude::*;
use crate::riftbound::resolved::{copy_opt_text, opt_text, same_text, sum_held};
use crate::abysswalker::CardName;

verus! {

/// A card as a resolved deck holds it: its name and its art.
#[derive(Debug, Clone, PartialEq, Eq)]
pub struct ResolvedCard {
    pub name: String,
    pub image_url: Option<String>,
}

/// A card as plain values.
pub type CardView = (Seq<char>, Option<Seq<char>>);

impl View for ResolvedCard {
    type V = CardView;

    open spec fn view(&self) -> CardView {
        (self.name@, opt_text(self.image_url))
    }
}

impl ResolvedCard {
    /// Whether `self` and `other` are the same card, name and art.
    pub fn same(&self, other: &ResolvedCard) -> (r: bool)
        ensures
            r == (self@ == other@),
    {
        let art = match (&self.image_url, &other.image_url) {
            (Some(a), Some(b)) => same_text(a, b),
            (None, None) => true,
            _ => false,
        };
        same_text(&self.name, &other.name) && art
    }

    /// A copy of the card.
    pub fn duplicate(&self) -> (r: ResolvedCard)
        ensures
            r@ == self@,
    {
        ResolvedCard { name: self.name.clone(), image_url: copy_opt_text(&self.image_url) }
    }
}

/// A card and how many copies of it a zone holds.
#[derive(Debug, Clone, PartialEq, Eq)]
pub struct DeckEntry {
    pub card: ResolvedCard,
    pub count: u32,
}

pub type Zone = Seq<(CardView, u32)>;

pub open spec fn zone_view(z: Seq<DeckEntry>) -> Zone {
    z.map_values(|e: DeckEntry| (e.card@, e.count))
}

/// The first entry of `z`, from `i` on, that holds `card`.
pub open spec fn entry_of(z: Zone, card: CardView, i: int) -> Option<int>
    decreases z.len() - i,
{
    if i < 0 || i >= z.len() {
        None
    } else if z[i].0 == card {
        Some(i)
    } else {
        entry_of(z, card, i + 1)
    }
}

/// The zone after `count` more copies of `card`: added to the card's entry
/// if it has one, else a new entry at the end.
pub open spec fn pushed(z: Zone, card: CardView, count: u32) -> Zone {
    match entry_of(z, card, 0) {
        Some(i) => z.update(i, (card, sum_held(z[i].1, count))),
        None => z.push((card, count)),
    }
}

/// Adds `count` copies of `card` to a zone, merging with the card's entry
/// if it has one. A count that would pass `u32::MAX` stays there.
pub fn push_card(zone: &mut Vec<DeckEntry>, card: ResolvedCard, count: u32)
    ensures
        zone_view(final(zone)@) == pushed(zone_view(old(zone)@), card@, count),
{
    let ghost z = zone_view(zone@);
    let mut i: usize = 0;
    while i < zone.len()
        invariant
            i <= zone@.len(),
            z == zone_view(zone@),
            z == zone_view(old(zone)@),
            entry_of(z, card@, 0) == entry_of(z, card@, i as int),
        decreases zone@.len() - i,
    {
        if zone[i].card.same(&card) {
            assert(z[i as int].0 == card@);
            assert(entry_of(z, card@, i as int) == Some(i as int));
            let total = zone[i].count.saturating_add(count);
            let kept = zone[i].card.duplicate();
            zone.set(i, DeckEntry { card: kept, count: total });
            assert(zone_view(zone@) =~= z.update(i as int, (card@, sum_held(z[i as int].1, count))));
            return;
        }
        i = i + 1;
    }
    zone.push(DeckEntry { card, count });
    assert(zone_view(zone@) =~= z.push((card@, count)));
}

/// A Magic deck: a commander, the main deck and a sideboard.
#[derive(Debug, Clone, PartialEq, Eq)]
pub struct ResolvedDeck {
    pub commander: Option<ResolvedCard>,
    pub main_deck: Vec<DeckEntry>,
    pub sideboard: Vec<DeckEntry>,
}

impl Default for ResolvedDeck {
    /// A deck with nothing in it.
    fn default() -> (d: Self)
        ensures
            d@ == (None::<CardView>, Seq::<(CardView, u32)>::empty(), Seq::<(CardView, u32)>::empty()),
    {
        let d = ResolvedDeck { commander: None, main_deck: Vec::new(), sideboard: Vec::new() };
        assert(zone_view(d.main_deck@) =~= Seq::<(CardView, u32)>::empty());
        d
    }
}

/// A deck as plain values: commander, main deck, sideboard.
pub type DeckView = (Option<CardView>, Zone, Zone);

impl View for ResolvedDeck {
    type V = DeckView;

    open spec fn view(&self) -> DeckView {
        (
            match self.commander {
                Some(c) => Some(c@),
                None => None,
            },
            zone_view(self.main_deck@),
            zone_view(self.sideboard@),
        )
    }
}

/// A Magic deck by card names, one per copy.
#[derive(Debug, Clone, PartialEq, Eq, Default)]
pub struct MtgDeck {
    pub main_deck: Vec<CardName>,
    pub sideboard: Vec<CardName>,
    pub commander: Option<CardName>,
}

/// The names a zone lists, one per copy, in zone order.
pub open spec fn expanded(z: Seq<DeckEntry>) -> Seq<Seq<char>>
    decreases z.len(),
{
    if z.len() == 0 {
        Seq::empty()
    } else {
        expanded(z.drop_last()) + Seq::new(z.last().count as nat, |i: int| z.last().card.name@)
    }
}

/// Card names as plain values.
pub open spec fn names_of(v: Seq<CardName>) -> Seq<Seq<char>> {
    v.map_values(|c: CardName| c.0@)
}

fn flatten(entries: &Vec<DeckEntry>) -> (r: Vec<CardName>)
    ensures
        names_of(r@) == expanded(entries@),
{
    let mut out: Vec<CardName> = Vec::new();
    let mut i: usize = 0;
    assert(entries@.take(0) =~= Seq::<DeckEntry>::empty());
    while i < entries.len()
        invariant
            i <= entries@.len(),
            names_of(out@) == expanded(entries@.take(i as int)),
        decreases entries@.len() - i,
    {
        let e = &entries[i];
        let ghost base = names_of(out@);
        let mut k: u32 = 0;
        while k < e.count
            invariant
                k <= e.count,
                names_of(out@) == base + Seq::new(k as nat, |j: int| e.card.name@),
            decreases e.count - k,
        {
            let ghost before = names_of(out@);
            out.push(CardName(e.card.name.clone()));
            assert(names_of(out@) =~= before.push(e.card.name@));
            assert(base + Seq::new((k + 1) as nat, |j: int| e.card.name@) =~= (base + Seq::new(k as nat, |j: int| e.card.name@)).push(e.card.name@));
            k = k + 1;
        }
        assert(entries@.take(i as int + 1).drop_last() =~= entries@.take(i as int));
        assert(entries@.take(i as int + 1).last() == *e);
        i = i + 1;
    }
    assert(entries@.take(i as int) =~= entries@);
    out
}

impl ResolvedDeck {
    /// The deck by card names, one per copy.
    pub fn names(&self) -> (r: MtgDeck)
        ensures
            names_of(r.main_deck@) == expanded(self.main_deck@),
            names_of(r.sideboard@) == expanded(self.sideboard@),
            match self.commander {
                Some(c) => r.commander matches Some(n) && n.0@ == c.name@,
                None => r.commander is None,
            },
    {
        MtgDeck {
            main_deck: flatten(&self.main_deck),
            sideboard: flatten(&self.sideboard),
            commander: match &self.commander {
                Some(card) => Some(CardName(card.name.clone())),
                None => None,
            },
        }
    }
}

} // verus!
