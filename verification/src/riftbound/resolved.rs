//! A resolved Riftbound deck: the cards the lookups found, by zone.
use vstd::prelude::*;
use crate::text::{chars_of, same};

verus! {

/// A card as a resolved deck holds it.
#[derive(Debug, Clone, PartialEq, Eq, Default)]
pub struct ResolvedCard {
    pub name: String,
    pub riftbound_id: String,
    pub image_url: Option<String>,
    pub kind: Option<String>,
    pub energy: Option<u8>,
    pub power: Option<u8>,
    pub might: Option<u8>,
    pub domain: Vec<String>,
    pub tags: Vec<String>,
    pub signature: bool,
}

/// The text of a list of strings.
pub open spec fn texts(v: Seq<String>) -> Seq<Seq<char>> {
    v.map_values(|s: String| s@)
}

pub open spec fn opt_text(o: Option<String>) -> Option<Seq<char>> {
    match o {
        Some(s) => Some(s@),
        None => None,
    }
}

/// What a card is, as plain values.
pub type CardView = (
    Seq<char>,
    Seq<char>,
    Option<Seq<char>>,
    Option<Seq<char>>,
    Option<u8>,
    Option<u8>,
    Option<u8>,
    Seq<Seq<char>>,
    Seq<Seq<char>>,
    bool,
);

impl View for ResolvedCard {
    type V = CardView;

    open spec fn view(&self) -> CardView {
        (
            self.name@,
            self.riftbound_id@,
            opt_text(self.image_url),
            opt_text(self.kind),
            self.energy,
            self.power,
            self.might,
            texts(self.domain@),
            texts(self.tags@),
            self.signature,
        )
    }
}

pub fn same_text(a: &String, b: &String) -> (r: bool)
    ensures
        r == (a@ == b@),
{
    let x = chars_of(a.as_str());
    let y = chars_of(b.as_str());
    same(x.as_slice(), y.as_slice())
}

fn same_opt_text(a: &Option<String>, b: &Option<String>) -> (r: bool)
    ensures
        r == (opt_text(*a) == opt_text(*b)),
{
    match (a, b) {
        (Some(x), Some(y)) => same_text(x, y),
        (None, None) => true,
        _ => false,
    }
}

fn same_texts(a: &Vec<String>, b: &Vec<String>) -> (r: bool)
    ensures
        r == (texts(a@) == texts(b@)),
{
    if a.len() != b.len() {
        assert(texts(a@).len() != texts(b@).len());
        return false;
    }
    let mut i: usize = 0;
    while i < a.len()
        invariant
            i <= a@.len(),
            a@.len() == b@.len(),
            forall|j: int| 0 <= j < i ==> a@[j]@ == b@[j]@,
        decreases a@.len() - i,
    {
        if !same_text(&a[i], &b[i]) {
            assert(texts(a@)[i as int] != texts(b@)[i as int]);
            return false;
        }
        i = i + 1;
    }
    assert(texts(a@) =~= texts(b@));
    true
}

pub fn copy_texts(v: &Vec<String>) -> (r: Vec<String>)
    ensures
        texts(r@) == texts(v@),
{
    let mut out: Vec<String> = Vec::new();
    let mut i: usize = 0;
    while i < v.len()
        invariant
            i <= v@.len(),
            texts(out@) == texts(v@.take(i as int)),
        decreases v@.len() - i,
    {
        let s = v[i].clone();
        assert(s@ == v@[i as int]@);
        let ghost prev = out@;
        out.push(s);
        assert(texts(out@) =~= texts(prev).push(s@));
        assert(v@.take(i as int + 1).drop_last() =~= v@.take(i as int));
        i = i + 1;
        assert(texts(out@) =~= texts(v@.take(i as int)));
    }
    assert(v@.take(i as int) =~= v@);
    out
}

pub fn copy_opt_text(o: &Option<String>) -> (r: Option<String>)
    ensures
        opt_text(r) == opt_text(*o),
{
    match o {
        Some(s) => Some(s.clone()),
        None => None,
    }
}

impl ResolvedCard {
    /// Whether `self` and `other` are the same card in every field.
    pub fn same(&self, other: &ResolvedCard) -> (r: bool)
        ensures
            r == (self@ == other@),
    {
        same_text(&self.name, &other.name) && same_text(&self.riftbound_id, &other.riftbound_id)
            && same_opt_text(&self.image_url, &other.image_url) && same_opt_text(&self.kind, &other.kind)
            && self.energy == other.energy && self.power == other.power && self.might == other.might
            && same_texts(&self.domain, &other.domain) && same_texts(&self.tags, &other.tags)
            && self.signature == other.signature
    }

    /// A copy of the card, equal in every field.
    pub fn duplicate(&self) -> (r: ResolvedCard)
        ensures
            r@ == self@,
    {
        ResolvedCard {
            name: self.name.clone(),
            riftbound_id: self.riftbound_id.clone(),
            image_url: copy_opt_text(&self.image_url),
            kind: copy_opt_text(&self.kind),
            energy: self.energy,
            power: self.power,
            might: self.might,
            domain: copy_texts(&self.domain),
            tags: copy_texts(&self.tags),
            signature: self.signature,
        }
    }
}

/// A card and how many copies of it a zone holds.
#[derive(Debug, Clone, PartialEq, Eq)]
pub struct DeckEntry {
    pub card: ResolvedCard,
    pub count: u32,
}

pub type Zone = Seq<(CardView, u32)>;

/// A zone as plain values.
pub open spec fn zone_view(z: Seq<DeckEntry>) -> Zone {
    z.map_values(|e: DeckEntry| (e.card@, e.count))
}

/// The first entry of `z` that holds `card`.
pub open spec fn entry_of(z: Zone, card: CardView, i: int) -> Option<int>
    decreases z.len() - i,
{
    if i < 0 || i >= z.len() {
        None
    } else if z[i].0 == card {
        Some(i)
    } else {
        entry_of(z, card, i + 1)
    }
}

/// `a + b`, held at `u32::MAX`.
pub open spec fn sum_held(a: u32, b: u32) -> u32 {
    if a + b > u32::MAX {
        u32::MAX
    } else {
        (a + b) as u32
    }
}

/// The zone after `count` more copies of `card`: added to the card's entry
/// if it has one, else a new entry at the end.
pub open spec fn pushed(z: Zone, card: CardView, count: u32) -> Zone {
    match entry_of(z, card, 0) {
        Some(i) => z.update(i, (card, sum_held(z[i].1, count))),
        None => z.push((card, count)),
    }
}

/// Adds `count` copies of `card` to a zone, merging with the card's entry
/// if it has one. A count that would pass `u32::MAX` stays there.
pub fn push_card(zone: &mut Vec<DeckEntry>, card: ResolvedCard, count: u32)
    ensures
        zone_view(final(zone)@) == pushed(zone_view(old(zone)@), card@, count),
{
    let ghost z = zone_view(zone@);
    let mut i: usize = 0;
    while i < zone.len()
        invariant
            i <= zone@.len(),
            z == zone_view(zone@),
            z == zone_view(old(zone)@),
            entry_of(z, card@, 0) == entry_of(z, card@, i as int),
        decreases zone@.len() - i,
    {
        if zone[i].card.same(&card) {
            assert(z[i as int].0 == card@);
            assert(entry_of(z, card@, i as int) == Some(i as int));
            let total = zone[i].count.saturating_add(count);
            let kept = zone[i].card.duplicate();
            zone.set(i, DeckEntry { card: kept, count: total });
            assert(zone_view(zone@) =~= z.update(i as int, (card@, sum_held(z[i as int].1, count))));
            return;
        }
        i = i + 1;
    }
    zone.push(DeckEntry { card, count });
    assert(zone_view(zone@) =~= z.push((card@, count)));
}

/// The copies a zone holds in all.
pub open spec fn zone_total(z: Zone) -> int
    decreases z.len(),
{
    if z.len() == 0 {
        0
    } else {
        zone_total(z.drop_last()) + z.last().1
    }
}

/// A deck by zone: a legend, a chosen champion, the main deck, runes,
/// battlefields and a sideboard.
#[derive(Debug, Clone, PartialEq, Eq)]
pub struct ResolvedDeck {
    pub legend: Option<ResolvedCard>,
    pub chosen_champion: Option<ResolvedCard>,
    pub main_deck: Vec<DeckEntry>,
    pub runes: Vec<DeckEntry>,
    pub battlefields: Vec<DeckEntry>,
    pub sideboard: Vec<DeckEntry>,
}

pub open spec fn opt_card(o: Option<ResolvedCard>) -> Option<CardView> {
    match o {
        Some(c) => Some(c@),
        None => None,
    }
}

impl Default for ResolvedDeck {
    /// A deck with nothing in it.
    fn default() -> (d: Self)
        ensures
            d@ == (
                None::<CardView>,
                None::<CardView>,
                Seq::<(CardView, u32)>::empty(),
                Seq::<(CardView, u32)>::empty(),
                Seq::<(CardView, u32)>::empty(),
                Seq::<(CardView, u32)>::empty(),
            ),
    {
        let d = ResolvedDeck {
            legend: None,
            chosen_champion: None,
            main_deck: Vec::new(),
            runes: Vec::new(),
            battlefields: Vec::new(),
            sideboard: Vec::new(),
        };
        assert(zone_view(d.main_deck@) =~= Seq::<(CardView, u32)>::empty());
        d
    }
}

/// A deck as plain values: legend, champion, then the four zones.
pub type DeckView = (Option<CardView>, Option<CardView>, Zone, Zone, Zone, Zone);

impl View for ResolvedDeck {
    type V = DeckView;

    open spec fn view(&self) -> DeckView {
        (
            opt_card(self.legend),
            opt_card(self.chosen_champion),
            zone_view(self.main_deck@),
            zone_view(self.runes@),
            zone_view(self.battlefields@),
            zone_view(self.sideboard@),
        )
    }
}

impl ResolvedDeck {
    /// A deck with nothing in it.
    pub fn new() -> (d: ResolvedDeck)
        ensures
            d@ == (None::<CardView>, None::<CardView>, Seq::<(CardView, u32)>::empty(), Seq::<(CardView, u32)>::empty(),
                Seq::<(CardView, u32)>::empty(), Seq::<(CardView, u32)>::empty()),
    {
        let d = ResolvedDeck {
            legend: None,
            chosen_champion: None,
            main_deck: Vec::new(),
            runes: Vec::new(),
            battlefields: Vec::new(),
            sideboard: Vec::new(),
        };
        assert(zone_view(d.main_deck@) =~= Seq::<(CardView, u32)>::empty());
        assert(zone_view(d.runes@) =~= Seq::<(CardView, u32)>::empty());
        assert(zone_view(d.battlefields@) =~= Seq::<(CardView, u32)>::empty());
        assert(zone_view(d.sideboard@) =~= Seq::<(CardView, u32)>::empty());
        d
    }
}

} // verus!
