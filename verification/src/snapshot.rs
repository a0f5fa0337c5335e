//! Deck snapshots, and the identity of the deck a snapshot holds: which
//! cards, how many, in which zone, whatever order, art or display names.
use vstd::prelude::*;
use crate::text::{chars_of, is, same};

verus! {

/// A card of a snapshot zone: how many copies, the key that names the
/// card, and what a reader is shown of it.
#[derive(Debug, Clone, PartialEq, Eq)]
pub struct SnapshotCard {
    pub count: u32,
    pub image_url: Option<String>,
    pub kind: Option<String>,
    pub energy: Option<u8>,
    pub power: Option<u8>,
    pub might: Option<u8>,
    pub domain: Vec<String>,
    pub tags: Vec<String>,
    pub signature: bool,
    pub key: String,
    pub name: String,
}

/// A zone of a snapshot and its cards.
#[derive(Debug, Clone, PartialEq, Eq)]
pub struct SnapshotZone {
    pub cards: Vec<SnapshotCard>,
    pub zone: String,
}

/// A deck as a game saves it: its zones and their cards.
#[derive(Debug, Clone, PartialEq, Eq)]
pub struct Snapshot {
    pub game: String,
    pub zones: Vec<SnapshotZone>,
}

/// A card of an identity: its key and its copies.
#[derive(Debug, Clone, PartialEq, Eq)]
pub struct IdentityCard {
    pub count: u32,
    pub key: String,
}

/// A zone of an identity.
#[derive(Debug, Clone, PartialEq, Eq)]
pub struct IdentityZone {
    pub cards: Vec<IdentityCard>,
    pub zone: String,
}

/// What makes two snapshots the same deck.
#[derive(Debug, Clone, PartialEq, Eq)]
pub struct DeckIdentity {
    pub game: String,
    pub zones: Vec<IdentityZone>,
}

/// The order of card keys and zone names: character by character, a
/// shorter text before any text it begins.
pub open spec fn key_lt(a: Seq<char>, b: Seq<char>) -> bool
    decreases a.len(),
{
    if a.len() == 0 {
        b.len() > 0
    } else if b.len() == 0 {
        false
    } else if a[0] != b[0] {
        a[0] < b[0]
    } else {
        key_lt(a.drop_first(), b.drop_first())
    }
}

pub fn key_less(a: &[char], b: &[char]) -> (r: bool)
    ensures
        r == key_lt(a@, b@),
{
    let mut i: usize = 0;
    assert(a@.skip(0) =~= a@);
    assert(b@.skip(0) =~= b@);
    while i < a.len() && i < b.len() && a[i] == b[i]
        invariant
            i <= a@.len(),
            i <= b@.len(),
            key_lt(a@, b@) == key_lt(a@.skip(i as int), b@.skip(i as int)),
        decreases a@.len() - i,
    {
        assert(a@.skip(i as int).drop_first() =~= a@.skip(i as int + 1));
        assert(b@.skip(i as int).drop_first() =~= b@.skip(i as int + 1));
        i = i + 1;
    }
    if i == a.len() {
        i < b.len()
    } else if i == b.len() {
        false
    } else {
        a[i] < b[i]
    }
}

/// A card as its key and copies.
pub type CardKey = (Seq<char>, u32);

/// A zone as its name and its cards' keys and copies.
pub type ZoneKey = (Seq<char>, Seq<CardKey>);

/// Keys with their copies in all.
pub type Grouped = Seq<(Seq<char>, nat)>;

/// A zone of an identity as plain values.
pub type IdZone = (Seq<char>, Grouped);

pub open spec fn card_keys(cards: Seq<SnapshotCard>) -> Seq<CardKey> {
    cards.map_values(|c: SnapshotCard| (c.key@, c.count))
}

pub open spec fn zone_keys(zones: Seq<SnapshotZone>) -> Seq<ZoneKey> {
    zones.map_values(|z: SnapshotZone| (z.zone@, card_keys(z.cards@)))
}

/// What identifies a snapshot's deck: its game, and each zone's name and
/// its cards' keys and copies.
pub open spec fn snapshot_keys(s: Snapshot) -> (Seq<char>, Seq<ZoneKey>) {
    (s.game@, zone_keys(s.zones@))
}

pub open spec fn id_cards(cards: Seq<IdentityCard>) -> Grouped {
    cards.map_values(|c: IdentityCard| (c.key@, c.count as nat))
}

pub open spec fn id_zones(zones: Seq<IdentityZone>) -> Seq<IdZone> {
    zones.map_values(|z: IdentityZone| (z.zone@, id_cards(z.cards@)))
}

/// An identity as plain values.
pub open spec fn identity_view(d: DeckIdentity) -> (Seq<char>, Seq<IdZone>) {
    (d.game@, id_zones(d.zones@))
}

/// Where a key goes among keys held in order: before the first one not
/// below it.
pub open spec fn slot(g: Grouped, key: Seq<char>, i: int) -> int
    decreases g.len() - i,
{
    if i < 0 || i >= g.len() {
        g.len() as int
    } else if !key_lt(g[i].0, key) {
        i
    } else {
        slot(g, key, i + 1)
    }
}

/// The keys after `count` more copies of `key`: added to the key's entry,
/// or a new entry in key order.
pub open spec fn add_to(g: Grouped, key: Seq<char>, count: nat) -> Grouped {
    let p = slot(g, key, 0);
    if p < g.len() && g[p].0 == key {
        g.update(p, (key, g[p].1 + count))
    } else {
        g.insert(p, (key, count))
    }
}

/// The copies of each key of a zone, in key order.
pub open spec fn grouped(cards: Seq<CardKey>) -> Grouped
    decreases cards.len(),
{
    if cards.len() == 0 {
        Seq::empty()
    } else {
        add_to(grouped(cards.drop_last()), cards.last().0, cards.last().1 as nat)
    }
}

/// The keys that have copies.
pub open spec fn positive(g: Grouped) -> Grouped
    decreases g.len(),
{
    if g.len() == 0 {
        Seq::empty()
    } else if g.last().1 > 0 {
        positive(g.drop_last()).push(g.last())
    } else {
        positive(g.drop_last())
    }
}

/// The identity of a zone's cards: each key with copies, once, with its
/// copies in all, in key order.
pub open spec fn zone_identity(cards: Seq<CardKey>) -> Grouped {
    positive(grouped(cards))
}

/// The zones that hold a card, in snapshot order.
pub open spec fn kept_zones(zones: Seq<ZoneKey>) -> Seq<IdZone>
    decreases zones.len(),
{
    if zones.len() == 0 {
        Seq::empty()
    } else {
        let before = kept_zones(zones.drop_last());
        let cards = zone_identity(zones.last().1);
        if cards.len() > 0 {
            before.push((zones.last().0, cards))
        } else {
            before
        }
    }
}

/// Where a zone goes among zones in name order: after every zone whose
/// name is not above its own.
pub open spec fn zone_slot(zs: Seq<IdZone>, name: Seq<char>, i: int) -> int
    decreases zs.len() - i,
{
    if i < 0 || i >= zs.len() {
        zs.len() as int
    } else if key_lt(name, zs[i].0) {
        i
    } else {
        zone_slot(zs, name, i + 1)
    }
}

/// The zones in name order, zones of one name in the order they came.
pub open spec fn sorted_zones(zs: Seq<IdZone>) -> Seq<IdZone>
    decreases zs.len(),
{
    if zs.len() == 0 {
        Seq::empty()
    } else {
        let s = sorted_zones(zs.drop_last());
        s.insert(zone_slot(s, zs.last().0, 0), zs.last())
    }
}

/// The identity of a deck: its game, and the zones that hold a card, in
/// name order, each with its keys in key order and their copies in all.
pub open spec fn identity_of(keys: (Seq<char>, Seq<ZoneKey>)) -> (Seq<char>, Seq<IdZone>) {
    (keys.0, sorted_zones(kept_zones(keys.1)))
}

/// The copies of `key` the cards hold in all.
pub open spec fn key_total(cards: Seq<CardKey>, key: Seq<char>) -> nat
    decreases cards.len(),
{
    if cards.len() == 0 {
        0
    } else {
        key_total(cards.drop_last(), key) + if cards.last().0 == key {
            cards.last().1 as nat
        } else {
            0
        }
    }
}

/// Whether every key's copies in every zone fit in a count.
pub open spec fn counts_fit(zones: Seq<ZoneKey>) -> bool {
    forall|i: int, k: Seq<char>| 0 <= i < zones.len() ==> #[trigger] key_total(zones[i].1, k) <= u32::MAX
}

/// The copies the cards hold in all.
pub open spec fn cards_total(cards: Seq<CardKey>) -> nat
    decreases cards.len(),
{
    if cards.len() == 0 {
        0
    } else {
        cards_total(cards.drop_last()) + cards.last().1 as nat
    }
}

/// The copies the zones hold in all.
pub open spec fn zones_total(zones: Seq<ZoneKey>) -> nat
    decreases zones.len(),
{
    if zones.len() == 0 {
        0
    } else {
        zones_total(zones.drop_last()) + cards_total(zones.last().1)
    }
}

/// The copies the entries hold of `key`.
pub open spec fn held(g: Grouped, key: Seq<char>) -> nat
    decreases g.len(),
{
    if g.len() == 0 {
        0
    } else {
        held(g.drop_last(), key) + if g.last().0 == key {
            g.last().1
        } else {
            0
        }
    }
}

pub proof fn lemma_held_concat(a: Grouped, b: Grouped, key: Seq<char>)
    ensures
        held(a + b, key) == held(a, key) + held(b, key),
    decreases b.len(),
{
    if b.len() > 0 {
        lemma_held_concat(a, b.drop_last(), key);
        assert((a + b).drop_last() =~= a + b.drop_last());
        assert((a + b).last() == b.last());
    } else {
        assert(a + b =~= a);
    }
}

proof fn lemma_held_one(x: (Seq<char>, nat), key: Seq<char>)
    ensures
        held(seq![x], key) == if x.0 == key { x.1 } else { 0 },
{
    assert(seq![x].drop_last() =~= Seq::<(Seq<char>, nat)>::empty());
    assert(held(Seq::<(Seq<char>, nat)>::empty(), key) == 0);
    assert(seq![x].last() == x);
}

/// Adding copies of a key adds them to that key's copies and no other's.
pub proof fn lemma_held_add_to(g: Grouped, key: Seq<char>, count: nat, k: Seq<char>)
    requires
        0 <= slot(g, key, 0) <= g.len(),
    ensures
        held(add_to(g, key, count), k) == held(g, k) + if k == key { count } else { 0 },
{
    let p = slot(g, key, 0);
    if p < g.len() && g[p].0 == key {
        let x = (key, g[p].1 + count);
        assert(g =~= g.take(p) + seq![g[p]] + g.skip(p + 1));
        assert(g.update(p, x) =~= g.take(p) + seq![x] + g.skip(p + 1));
        lemma_held_concat(g.take(p) + seq![g[p]], g.skip(p + 1), k);
        lemma_held_concat(g.take(p), seq![g[p]], k);
        lemma_held_concat(g.take(p) + seq![x], g.skip(p + 1), k);
        lemma_held_concat(g.take(p), seq![x], k);
        lemma_held_one(g[p], k);
        lemma_held_one(x, k);
    } else {
        let x = (key, count);
        assert(g =~= g.take(p) + g.skip(p));
        assert(g.insert(p, x) =~= g.take(p) + seq![x] + g.skip(p));
        lemma_held_concat(g.take(p), g.skip(p), k);
        lemma_held_concat(g.take(p) + seq![x], g.skip(p), k);
        lemma_held_concat(g.take(p), seq![x], k);
        lemma_held_one(x, k);
    }
}

/// An entry's copies are among its key's copies.
pub proof fn lemma_entry_held(g: Grouped, p: int)
    requires
        0 <= p < g.len(),
    ensures
        g[p].1 <= held(g, g[p].0),
{
    assert(g =~= g.take(p) + seq![g[p]] + g.skip(p + 1));
    lemma_held_concat(g.take(p) + seq![g[p]], g.skip(p + 1), g[p].0);
    lemma_held_concat(g.take(p), seq![g[p]], g[p].0);
    lemma_held_one(g[p], g[p].0);
}

pub proof fn lemma_slot_bounds(g: Grouped, key: Seq<char>, i: int)
    requires
        0 <= i <= g.len(),
    ensures
        i <= slot(g, key, i) <= g.len(),
        forall|j: int| i <= j < slot(g, key, i) ==> key_lt(#[trigger] g[j].0, key),
        slot(g, key, i) < g.len() ==> !key_lt(g[slot(g, key, i)].0, key),
    decreases g.len() - i,
{
    if i < g.len() && key_lt(g[i].0, key) {
        lemma_slot_bounds(g, key, i + 1);
    }
}

/// A zone's copies of each key are those its cards hold.
pub proof fn lemma_grouped_held(cards: Seq<CardKey>, k: Seq<char>)
    ensures
        held(grouped(cards), k) == key_total(cards, k),
    decreases cards.len(),
{
    if cards.len() > 0 {
        lemma_grouped_held(cards.drop_last(), k);
        lemma_slot_bounds(grouped(cards.drop_last()), cards.last().0, 0);
        lemma_held_add_to(grouped(cards.drop_last()), cards.last().0, cards.last().1 as nat, k);
    }
}

proof fn lemma_key_total_prefix(cards: Seq<CardKey>, i: int, k: Seq<char>)
    requires
        0 <= i <= cards.len(),
    ensures
        key_total(cards.take(i), k) <= key_total(cards, k),
    decreases cards.len() - i,
{
    if i < cards.len() {
        assert(cards.take(i + 1).drop_last() =~= cards.take(i));
        lemma_key_total_prefix(cards, i + 1, k);
    } else {
        assert(cards.take(i) =~= cards);
    }
}

/// The keys of a zone's cards with their copies in all, in key order, each
/// key once; the keys without copies are dropped.
fn zone_cards(cards: &Vec<SnapshotCard>) -> (r: Vec<IdentityCard>)
    requires
        forall|k: Seq<char>| #[trigger] key_total(card_keys(cards@), k) <= u32::MAX,
    ensures
        id_cards(r@) == zone_identity(card_keys(cards@)),
{
    let ghost cs = card_keys(cards@);
    let mut g: Vec<IdentityCard> = Vec::new();
    let mut i: usize = 0;
    assert(cs.take(0) =~= Seq::<CardKey>::empty());
    assert(id_cards(g@) =~= Seq::<(Seq<char>, nat)>::empty());
    while i < cards.len()
        invariant
            i <= cards@.len(),
            cs == card_keys(cards@),
            forall|k: Seq<char>| #[trigger] key_total(cs, k) <= u32::MAX,
            id_cards(g@) == grouped(cs.take(i as int)),
        decreases cards@.len() - i,
    {
        let card = &cards[i];
        let ghost prev = cs.take(i as int);
        let ghost gv = id_cards(g@);
        assert(cs.take(i as int + 1).drop_last() =~= prev);
        assert(cs.take(i as int + 1).last() == (card.key@, card.count));
        let key = chars_of(card.key.as_str());
        let mut p: usize = 0;
        while p < g.len() && key_less(chars_of(g[p].key.as_str()).as_slice(), key.as_slice())
            invariant
                p <= g@.len(),
                key@ == card.key@,
                gv == id_cards(g@),
                slot(gv, key@, 0) == slot(gv, key@, p as int),
            decreases g@.len() - p,
        {
            assert(gv[p as int].0 == g@[p as int].key@);
            p = p + 1;
        }
        proof {
            lemma_slot_bounds(gv, key@, 0);
            if p < g@.len() {
                assert(gv[p as int].0 == g@[p as int].key@);
                assert(!key_lt(gv[p as int].0, key@));
            }
            assert(slot(gv, key@, 0) == p);
        }
        let hit = p < g.len() && same(chars_of(g[p].key.as_str()).as_slice(), key.as_slice());
        if hit {
            proof {
                assert(gv[p as int].0 == card.key@);
                lemma_entry_held(gv, p as int);
                lemma_grouped_held(prev, card.key@);
                lemma_grouped_held(cs.take(i as int + 1), card.key@);
                lemma_slot_bounds(gv, card.key@, 0);
                lemma_held_add_to(gv, card.key@, card.count as nat, card.key@);
                lemma_key_total_prefix(cs, i as int + 1, card.key@);
            }
            let total = g[p].count + card.count;
            let entry = IdentityCard { count: total, key: card.key.clone() };
            g.set(p, entry);
            assert(id_cards(g@) =~= gv.update(p as int, (card.key@, gv[p as int].1 + card.count as nat)));
        } else {
            g.insert(p, IdentityCard { count: card.count, key: card.key.clone() });
            assert(id_cards(g@) =~= gv.insert(p as int, (card.key@, card.count as nat)));
        }
        i = i + 1;
    }
    assert(cs.take(i as int) =~= cs);
    let mut out: Vec<IdentityCard> = Vec::new();
    let ghost gv = id_cards(g@);
    let entries = g.len();
    let mut j: usize = 0;
    assert(gv.take(0) =~= Seq::<(Seq<char>, nat)>::empty());
    assert(id_cards(out@) =~= Seq::<(Seq<char>, nat)>::empty());
    while g.len() > 0
        invariant
            j <= gv.len(),
            gv.len() == entries,
            id_cards(g@) == gv.skip(j as int),
            id_cards(out@) == positive(gv.take(j as int)),
        decreases g@.len(),
    {
        assert(id_cards(g@).len() == g@.len());
        assert(j < gv.len());
        let ghost before_g = id_cards(g@);
        let e = g.remove(0);
        assert(id_cards(g@) =~= before_g.drop_first());
        assert(gv.skip(j as int)[0] == (e.key@, e.count as nat));
        assert(gv.take(j as int + 1).drop_last() =~= gv.take(j as int));
        assert(gv.take(j as int + 1).last() == (e.key@, e.count as nat));
        let ghost before = id_cards(out@);
        if e.count > 0 {
            out.push(e);
            assert(id_cards(out@) =~= before.push((e.key@, e.count as nat)));
        }
        assert(id_cards(g@) =~= gv.skip(j as int + 1));
        j = j + 1;
    }
    assert(gv.skip(j as int).len() == 0);
    assert(gv.take(j as int) =~= gv);
    out
}

proof fn lemma_cards_total_prefix(cards: Seq<CardKey>, i: int)
    requires
        0 <= i <= cards.len(),
    ensures
        cards_total(cards.take(i)) <= cards_total(cards),
    decreases cards.len() - i,
{
    if i < cards.len() {
        assert(cards.take(i + 1).drop_last() =~= cards.take(i));
        lemma_cards_total_prefix(cards, i + 1);
    } else {
        assert(cards.take(i) =~= cards);
    }
}

proof fn lemma_zones_total_prefix(zones: Seq<ZoneKey>, i: int)
    requires
        0 <= i <= zones.len(),
    ensures
        zones_total(zones.take(i)) <= zones_total(zones),
    decreases zones.len() - i,
{
    if i < zones.len() {
        assert(zones.take(i + 1).drop_last() =~= zones.take(i));
        lemma_zones_total_prefix(zones, i + 1);
    } else {
        assert(zones.take(i) =~= zones);
    }
}

/// The first zone named `name`, from the `i`-th on.
pub open spec fn zone_named(zones: Seq<SnapshotZone>, name: Seq<char>, i: int) -> Option<int>
    decreases zones.len() - i,
{
    if i < 0 || i >= zones.len() {
        None
    } else if zones[i].zone@ == name {
        Some(i)
    } else {
        zone_named(zones, name, i + 1)
    }
}

impl SnapshotZone {
    /// A zone of the given name with the given cards.
    pub fn new(zone: &str, cards: Vec<SnapshotCard>) -> (r: Self)
        ensures
            r.zone@ == zone@,
            r.cards@ == cards@,
    {
        SnapshotZone { cards, zone: crate::text::string_of(chars_of(zone).as_slice()) }
    }

    /// The copies the zone holds in all.
    pub fn total(&self) -> (r: u32)
        requires
            cards_total(card_keys(self.cards@)) <= u32::MAX,
        ensures
            r == cards_total(card_keys(self.cards@)),
    {
        let ghost cs = card_keys(self.cards@);
        let mut sum: u32 = 0;
        let mut i: usize = 0;
        assert(cs.take(0) =~= Seq::<CardKey>::empty());
        while i < self.cards.len()
            invariant
                i <= self.cards@.len(),
                cs == card_keys(self.cards@),
                cards_total(cs) <= u32::MAX,
                sum == cards_total(cs.take(i as int)),
            decreases self.cards@.len() - i,
        {
            assert(cs.take(i as int + 1).drop_last() =~= cs.take(i as int));
            proof {
                lemma_cards_total_prefix(cs, i as int + 1);
            }
            sum = sum + self.cards[i].count;
            i = i + 1;
        }
        assert(cs.take(i as int) =~= cs);
        sum
    }
}

impl Snapshot {
    /// A snapshot of a deck of the given game.
    pub fn new(game: &str, zones: Vec<SnapshotZone>) -> (r: Self)
        ensures
            r.game@ == game@,
            r.zones@ == zones@,
    {
        Snapshot { game: crate::text::string_of(chars_of(game).as_slice()), zones }
    }

    /// The copies the deck holds in all.
    pub fn total(&self) -> (r: u32)
        requires
            zones_total(zone_keys(self.zones@)) <= u32::MAX,
        ensures
            r == zones_total(zone_keys(self.zones@)),
    {
        let ghost zs = zone_keys(self.zones@);
        let mut sum: u32 = 0;
        let mut i: usize = 0;
        assert(zs.take(0) =~= Seq::<ZoneKey>::empty());
        while i < self.zones.len()
            invariant
                i <= self.zones@.len(),
                zs == zone_keys(self.zones@),
                zones_total(zs) <= u32::MAX,
                sum == zones_total(zs.take(i as int)),
            decreases self.zones@.len() - i,
        {
            assert(zs.take(i as int + 1).drop_last() =~= zs.take(i as int));
            assert(zs.take(i as int + 1).last() == zs[i as int]);
            proof {
                lemma_zones_total_prefix(zs, i as int + 1);
            }
            let t = self.zones[i].total();
            sum = sum + t;
            i = i + 1;
        }
        assert(zs.take(i as int) =~= zs);
        sum
    }

    /// The first zone of the given name.
    pub fn zone(&self, zone: &str) -> (r: Option<&SnapshotZone>)
        ensures
            match zone_named(self.zones@, zone@, 0) {
                Some(i) => r matches Some(z) && *z == self.zones@[i],
                None => r is None,
            },
    {
        let mut i: usize = 0;
        while i < self.zones.len()
            invariant
                i <= self.zones@.len(),
                zone_named(self.zones@, zone@, 0) == zone_named(self.zones@, zone@, i as int),
            decreases self.zones@.len() - i,
        {
            if is(chars_of(self.zones[i].zone.as_str()).as_slice(), zone) {
                return Some(&self.zones[i]);
            }
            i = i + 1;
        }
        None
    }

    /// The identity of the deck the snapshot holds.
    pub fn identity(&self) -> (r: DeckIdentity)
        requires
            counts_fit(zone_keys(self.zones@)),
        ensures
            identity_view(r) == identity_of(snapshot_keys(*self)),
    {
        let ghost zs = zone_keys(self.zones@);
        let mut kept: Vec<IdentityZone> = Vec::new();
        let mut i: usize = 0;
        assert(zs.take(0) =~= Seq::<ZoneKey>::empty());
        assert(id_zones(kept@) =~= Seq::<IdZone>::empty());
        while i < self.zones.len()
            invariant
                i <= self.zones@.len(),
                zs == zone_keys(self.zones@),
                counts_fit(zs),
                id_zones(kept@) == kept_zones(zs.take(i as int)),
            decreases self.zones@.len() - i,
        {
            let z = &self.zones[i];
            assert(zs[i as int].1 == card_keys(z.cards@));
            assert forall|k: Seq<char>| #[trigger] key_total(card_keys(z.cards@), k) <= u32::MAX by {
                assert(key_total(zs[i as int].1, k) <= u32::MAX);
            }
            let cards = zone_cards(&z.cards);
            assert(zs.take(i as int + 1).drop_last() =~= zs.take(i as int));
            assert(zs.take(i as int + 1).last() == zs[i as int]);
            let ghost before = id_zones(kept@);
            if cards.len() > 0 {
                kept.push(IdentityZone { cards, zone: z.zone.clone() });
                assert(id_zones(kept@) =~= before.push((z.zone@, zone_identity(card_keys(z.cards@)))));
            }
            i = i + 1;
        }
        assert(zs.take(i as int) =~= zs);
        let ghost kz = id_zones(kept@);
        let total = kept.len();
        let mut sorted: Vec<IdentityZone> = Vec::new();
        let mut j: usize = 0;
        assert(kz.skip(0) =~= kz);
        assert(kz.take(0) =~= Seq::<IdZone>::empty());
        assert(id_zones(sorted@) =~= Seq::<IdZone>::empty());
        while kept.len() > 0
            invariant
                j <= kz.len(),
                kz.len() == total,
                id_zones(kept@) == kz.skip(j as int),
                id_zones(sorted@) == sorted_zones(kz.take(j as int)),
            decreases kept@.len(),
        {
            assert(id_zones(kept@).len() == kept@.len());
            let ghost before_kept = id_zones(kept@);
            let z = kept.remove(0);
            assert(id_zones(kept@) =~= before_kept.drop_first());
            assert(kz.skip(j as int)[0] == (z.zone@, id_cards(z.cards@)));
            let ghost sv = id_zones(sorted@);
            let name = chars_of(z.zone.as_str());
            let mut p: usize = 0;
            while p < sorted.len() && !key_less(name.as_slice(), chars_of(sorted[p].zone.as_str()).as_slice())
                invariant
                    p <= sorted@.len(),
                    name@ == z.zone@,
                    sv == id_zones(sorted@),
                    zone_slot(sv, name@, 0) == zone_slot(sv, name@, p as int),
                decreases sorted@.len() - p,
            {
                assert(sv[p as int].0 == sorted@[p as int].zone@);
                p = p + 1;
            }
            proof {
                if p < sorted@.len() {
                    assert(sv[p as int].0 == sorted@[p as int].zone@);
                }
                assert(zone_slot(sv, name@, p as int) == p);
            }
            sorted.insert(p, z);
            assert(kz.take(j as int + 1).drop_last() =~= kz.take(j as int));
            assert(kz.take(j as int + 1).last() == (z.zone@, id_cards(z.cards@)));
            assert(id_zones(sorted@) =~= sv.insert(p as int, (z.zone@, id_cards(z.cards@))));
            assert(id_zones(kept@) =~= kz.skip(j as int + 1));
            j = j + 1;
        }
        assert(kz.skip(j as int).len() == 0);
        assert(kz.take(j as int) =~= kz);
        DeckIdentity { game: self.game.clone(), zones: sorted }
    }
}

// ---------------------------------------------------------------------------
// Key order
// ---------------------------------------------------------------------------

proof fn lemma_key_irreflexive(a: Seq<char>)
    ensures
        !key_lt(a, a),
    decreases a.len(),
{
    if a.len() > 0 {
        lemma_key_irreflexive(a.drop_first());
    }
}

pub proof fn lemma_key_transitive(a: Seq<char>, b: Seq<char>, c: Seq<char>)
    requires
        key_lt(a, b),
        key_lt(b, c),
    ensures
        key_lt(a, c),
    decreases a.len(),
{
    if a.len() > 0 && b.len() > 0 && c.len() > 0 && a[0] == b[0] && b[0] == c[0] {
        lemma_key_transitive(a.drop_first(), b.drop_first(), c.drop_first());
    }
}

pub proof fn lemma_key_order_total(a: Seq<char>, b: Seq<char>)
    requires
        a != b,
    ensures
        key_lt(a, b) || key_lt(b, a),
    decreases a.len(),
{
    if a.len() == 0 {
        if b.len() == 0 {
            assert(a =~= b);
        }
    } else if b.len() == 0 {
    } else if a[0] != b[0] {
    } else if a.drop_first() =~= b.drop_first() {
        assert(a =~= seq![a[0]] + a.drop_first());
        assert(b =~= seq![b[0]] + b.drop_first());
    } else {
        lemma_key_order_total(a.drop_first(), b.drop_first());
    }
}

/// The entries' keys rise strictly.
pub open spec fn strictly_sorted(g: Grouped) -> bool {
    forall|i: int, j: int| 0 <= i < j < g.len() ==> key_lt(#[trigger] g[i].0, #[trigger] g[j].0)
}

/// Whether an entry holds `key`.
pub open spec fn present(g: Grouped, key: Seq<char>) -> bool {
    exists|i: int| 0 <= i < g.len() && (#[trigger] g[i]).0 == key
}

/// Whether a card holds `key`.
pub open spec fn carded(cards: Seq<CardKey>, key: Seq<char>) -> bool {
    exists|j: int| 0 <= j < cards.len() && (#[trigger] cards[j]).0 == key
}

proof fn lemma_add_to_sorted(g: Grouped, key: Seq<char>, count: nat)
    requires
        strictly_sorted(g),
    ensures
        strictly_sorted(add_to(g, key, count)),
        forall|k: Seq<char>| present(add_to(g, key, count), k) <==> (present(g, k) || k == key),
{
    lemma_slot_bounds(g, key, 0);
    let p = slot(g, key, 0);
    let h = add_to(g, key, count);
    if p < g.len() && g[p].0 == key {
        assert forall|i: int| 0 <= i < h.len() implies (#[trigger] h[i]).0 == g[i].0 by {}
        assert forall|k: Seq<char>| present(h, k) <==> (present(g, k) || k == key) by {
            if present(h, k) {
                let i = choose|i: int| 0 <= i < h.len() && (#[trigger] h[i]).0 == k;
                assert(g[i].0 == k);
            }
            if present(g, k) {
                let i = choose|i: int| 0 <= i < g.len() && (#[trigger] g[i]).0 == k;
                assert(h[i].0 == k);
            }
            if k == key {
                assert(h[p].0 == k);
            }
        }
    } else {
        if p < g.len() {
            lemma_key_order_total(g[p].0, key);
        }
        assert forall|m: int| p <= m < g.len() implies key_lt(key, #[trigger] g[m].0) by {
            if m > p {
                lemma_key_transitive(key, g[p].0, g[m].0);
            }
        }
        assert forall|i: int, j: int| 0 <= i < j < h.len() implies key_lt(#[trigger] h[i].0, #[trigger] h[j].0) by {
            if j < p {
                assert(h[i] == g[i] && h[j] == g[j]);
            } else if j == p {
                assert(h[i] == g[i]);
            } else if i < p {
                assert(h[i] == g[i] && h[j] == g[j - 1]);
                lemma_key_transitive(g[i].0, key, g[j - 1].0);
            } else if i == p {
                assert(h[j] == g[j - 1]);
            } else {
                assert(h[i] == g[i - 1] && h[j] == g[j - 1]);
            }
        }
        assert forall|k: Seq<char>| present(h, k) <==> (present(g, k) || k == key) by {
            if present(h, k) {
                let i = choose|i: int| 0 <= i < h.len() && (#[trigger] h[i]).0 == k;
                if i < p {
                    assert(h[i] == g[i]);
                } else if i > p {
                    assert(h[i] == g[i - 1]);
                }
            }
            if present(g, k) {
                let i = choose|i: int| 0 <= i < g.len() && (#[trigger] g[i]).0 == k;
                if i < p {
                    assert(h[i] == g[i]);
                } else {
                    assert(h[i + 1] == g[i]);
                }
            }
            if k == key {
                assert(h[p].0 == k);
            }
        }
    }
}

/// A zone's keys are held in strictly rising order, and exactly the keys
/// its cards name are held.
pub proof fn lemma_grouped_sorted(cards: Seq<CardKey>)
    ensures
        strictly_sorted(grouped(cards)),
        forall|k: Seq<char>| present(grouped(cards), k) <==> carded(cards, k),
    decreases cards.len(),
{
    if cards.len() > 0 {
        let c = cards.drop_last();
        lemma_grouped_sorted(c);
        lemma_add_to_sorted(grouped(c), cards.last().0, cards.last().1 as nat);
        assert forall|k: Seq<char>| carded(cards, k) <==> (carded(c, k) || k == cards.last().0) by {
            if carded(cards, k) {
                let j = choose|j: int| 0 <= j < cards.len() && (#[trigger] cards[j]).0 == k;
                if j < c.len() {
                    assert(c[j] == cards[j]);
                }
            }
            if carded(c, k) {
                let j = choose|j: int| 0 <= j < c.len() && (#[trigger] c[j]).0 == k;
                assert(cards[j] == c[j]);
            }
            if k == cards.last().0 {
                assert(cards[cards.len() - 1].0 == k);
            }
        }
    }
}

proof fn lemma_held_first(g: Grouped, k: Seq<char>)
    requires
        g.len() > 0,
    ensures
        held(g, k) == held(g.drop_first(), k) + if g[0].0 == k { g[0].1 } else { 0 },
{
    assert(g =~= seq![g[0]] + g.drop_first());
    lemma_held_concat(seq![g[0]], g.drop_first(), k);
    lemma_held_one(g[0], k);
}

proof fn lemma_held_absent(g: Grouped, k: Seq<char>)
    requires
        !present(g, k),
    ensures
        held(g, k) == 0,
    decreases g.len(),
{
    if g.len() > 0 {
        assert forall|i: int| 0 <= i < g.drop_last().len() implies (#[trigger] g.drop_last()[i]).0 != k by {
            assert(g.drop_last()[i] == g[i]);
        }
        lemma_held_absent(g.drop_last(), k);
        assert(g[g.len() - 1].0 != k);
    }
}

/// Two key lists in strictly rising order that hold the same keys with the
/// same copies are one list.
pub proof fn lemma_sorted_unique(g1: Grouped, g2: Grouped)
    requires
        strictly_sorted(g1),
        strictly_sorted(g2),
        forall|k: Seq<char>| present(g1, k) <==> present(g2, k),
        forall|k: Seq<char>| held(g1, k) == held(g2, k),
    ensures
        g1 == g2,
    decreases g1.len() + g2.len(),
{
    if g1.len() == 0 || g2.len() == 0 {
        if g1.len() > 0 {
            assert(present(g1, g1[0].0));
        }
        if g2.len() > 0 {
            assert(present(g2, g2[0].0));
        }
        assert(g1 =~= g2);
    } else {
        let a = g1[0].0;
        let b = g2[0].0;
        assert(present(g1, a));
        assert(present(g2, b));
        if a != b {
            let i = choose|i: int| 0 <= i < g2.len() && (#[trigger] g2[i]).0 == a;
            let m = choose|m: int| 0 <= m < g1.len() && (#[trigger] g1[m]).0 == b;
            assert(i > 0 && m > 0);
            assert(key_lt(g2[0].0, g2[i].0));
            assert(key_lt(g1[0].0, g1[m].0));
            lemma_key_transitive(a, b, a);
            lemma_key_irreflexive(a);
        }
        let t1 = g1.drop_first();
        let t2 = g2.drop_first();
        assert forall|k: Seq<char>| present(t1, k) ==> k != a && present(g1, k) by {
            if present(t1, k) {
                let i = choose|i: int| 0 <= i < t1.len() && (#[trigger] t1[i]).0 == k;
                assert(t1[i] == g1[i + 1]);
                assert(key_lt(g1[0].0, g1[i + 1].0));
                if k == a {
                    lemma_key_irreflexive(a);
                }
            }
        }
        assert forall|k: Seq<char>| present(t2, k) ==> k != a && present(g2, k) by {
            if present(t2, k) {
                let i = choose|i: int| 0 <= i < t2.len() && (#[trigger] t2[i]).0 == k;
                assert(t2[i] == g2[i + 1]);
                assert(key_lt(g2[0].0, g2[i + 1].0));
                if k == a {
                    lemma_key_irreflexive(a);
                }
            }
        }
        assert forall|k: Seq<char>| present(g1, k) && k != a ==> present(t1, k) by {
            if present(g1, k) && k != a {
                let i = choose|i: int| 0 <= i < g1.len() && (#[trigger] g1[i]).0 == k;
                assert(t1[i - 1] == g1[i]);
            }
        }
        assert forall|k: Seq<char>| present(g2, k) && k != a ==> present(t2, k) by {
            if present(g2, k) && k != a {
                let i = choose|i: int| 0 <= i < g2.len() && (#[trigger] g2[i]).0 == k;
                assert(t2[i - 1] == g2[i]);
            }
        }
        assert forall|k: Seq<char>| held(t1, k) == held(t2, k) by {
            lemma_held_first(g1, k);
            lemma_held_first(g2, k);
            if k == a {
                lemma_held_absent(t1, k);
                lemma_held_absent(t2, k);
            }
        }
        lemma_held_first(g1, a);
        lemma_held_first(g2, a);
        lemma_held_absent(t1, a);
        lemma_held_absent(t2, a);
        assert forall|i: int, j: int| 0 <= i < j < t1.len() implies key_lt(#[trigger] t1[i].0, #[trigger] t1[j].0) by {
            assert(t1[i] == g1[i + 1] && t1[j] == g1[j + 1]);
        }
        assert forall|i: int, j: int| 0 <= i < j < t2.len() implies key_lt(#[trigger] t2[i].0, #[trigger] t2[j].0) by {
            assert(t2[i] == g2[i + 1] && t2[j] == g2[j + 1]);
        }
        lemma_sorted_unique(t1, t2);
        assert(g1 =~= seq![g1[0]] + t1);
        assert(g2 =~= seq![g2[0]] + t2);
    }
}

proof fn lemma_key_total_concat(a: Seq<CardKey>, b: Seq<CardKey>, k: Seq<char>)
    ensures
        key_total(a + b, k) == key_total(a, k) + key_total(b, k),
    decreases b.len(),
{
    if b.len() > 0 {
        lemma_key_total_concat(a, b.drop_last(), k);
        assert((a + b).drop_last() =~= a + b.drop_last());
        assert((a + b).last() == b.last());
    } else {
        assert(a + b =~= a);
    }
}

proof fn lemma_key_total_remove(s: Seq<CardKey>, j: int, k: Seq<char>)
    requires
        0 <= j < s.len(),
    ensures
        key_total(s, k) == key_total(s.remove(j), k) + if s[j].0 == k { s[j].1 as nat } else { 0 },
{
    assert(s =~= s.take(j) + seq![s[j]] + s.skip(j + 1));
    assert(s.remove(j) =~= s.take(j) + s.skip(j + 1));
    lemma_key_total_concat(s.take(j) + seq![s[j]], s.skip(j + 1), k);
    lemma_key_total_concat(s.take(j), seq![s[j]], k);
    lemma_key_total_concat(s.take(j), s.skip(j + 1), k);
    assert(seq![s[j]].drop_last() =~= Seq::<CardKey>::empty());
    assert(key_total(Seq::<CardKey>::empty(), k) == 0);
}

/// Cards in another order hold the same copies of each key, and name the
/// same keys.
pub proof fn lemma_reordered_cards(s1: Seq<CardKey>, s2: Seq<CardKey>)
    requires
        s1.to_multiset() == s2.to_multiset(),
    ensures
        forall|k: Seq<char>| #[trigger] key_total(s1, k) == key_total(s2, k),
        forall|k: Seq<char>| carded(s1, k) <==> carded(s2, k),
    decreases s1.len(),
{
    broadcast use vstd::seq_lib::group_to_multiset_ensures;
    assert forall|k: Seq<char>| carded(s1, k) ==> carded(s2, k) by {
        if carded(s1, k) {
            let j = choose|j: int| 0 <= j < s1.len() && (#[trigger] s1[j]).0 == k;
            assert(s1.contains(s1[j]));
            assert(s2.to_multiset().count(s1[j]) > 0);
            assert(s2.contains(s1[j]));
            let m = choose|m: int| 0 <= m < s2.len() && s2[m] == s1[j];
            assert(s2[m].0 == k);
        }
    }
    assert forall|k: Seq<char>| carded(s2, k) ==> carded(s1, k) by {
        if carded(s2, k) {
            let j = choose|j: int| 0 <= j < s2.len() && (#[trigger] s2[j]).0 == k;
            assert(s2.contains(s2[j]));
            assert(s1.to_multiset().count(s2[j]) > 0);
            assert(s1.contains(s2[j]));
            let m = choose|m: int| 0 <= m < s1.len() && s1[m] == s2[j];
            assert(s1[m].0 == k);
        }
    }
    if s1.len() == 0 {
        assert(s2.len() == s2.to_multiset().len());
        assert(s2 =~= Seq::<CardKey>::empty());
    } else {
        let x = s1.last();
        assert(s1.contains(x));
        assert(s2.to_multiset().count(x) > 0);
        assert(s2.contains(x));
        let j = choose|j: int| 0 <= j < s2.len() && s2[j] == x;
        assert(s1.remove(s1.len() - 1) =~= s1.drop_last());
        assert(s1.drop_last().to_multiset() == s1.to_multiset().remove(x));
        assert(s2.remove(j).to_multiset() == s2.to_multiset().remove(x));
        lemma_reordered_cards(s1.drop_last(), s2.remove(j));
        assert forall|k: Seq<char>| #[trigger] key_total(s1, k) == key_total(s2, k) by {
            lemma_key_total_remove(s2, j, k);
            assert(key_total(s1.drop_last(), k) == key_total(s2.remove(j), k));
        }
    }
}

proof fn lemma_held_positive(g: Grouped, k: Seq<char>)
    ensures
        held(positive(g), k) == held(g, k),
    decreases g.len(),
{
    if g.len() > 0 {
        lemma_held_positive(g.drop_last(), k);
        if g.last().1 > 0 {
            assert(positive(g).drop_last() =~= positive(g.drop_last()));
            assert(positive(g).last() == g.last());
        }
    }
}

/// The order of a zone's cards does not change the zone's identity.
pub proof fn lemma_card_order(s1: Seq<CardKey>, s2: Seq<CardKey>)
    requires
        s1.to_multiset() == s2.to_multiset(),
    ensures
        zone_identity(s1) == zone_identity(s2),
{
    lemma_reordered_cards(s1, s2);
    lemma_grouped_sorted(s1);
    lemma_grouped_sorted(s2);
    assert forall|k: Seq<char>| held(grouped(s1), k) == held(grouped(s2), k) by {
        lemma_grouped_held(s1, k);
        lemma_grouped_held(s2, k);
        assert(key_total(s1, k) == key_total(s2, k));
    }
    assert forall|k: Seq<char>| present(grouped(s1), k) <==> present(grouped(s2), k) by {
        assert(carded(s1, k) <==> carded(s2, k));
    }
    lemma_sorted_unique(grouped(s1), grouped(s2));
}

proof fn lemma_positive_keys(g: Grouped)
    ensures
        forall|k: Seq<char>| present(positive(g), k) ==> present(g, k),
    decreases g.len(),
{
    if g.len() > 0 {
        let t = g.drop_last();
        lemma_positive_keys(t);
        let p = positive(g);
        let pt = positive(t);
        if g.last().1 > 0 {
            assert(p == pt.push(g.last()));
        } else {
            assert(p == pt);
        }
        assert forall|k: Seq<char>| present(p, k) implies present(g, k) by {
            let i = choose|i: int| 0 <= i < p.len() && (#[trigger] p[i]).0 == k;
            if g.last().1 > 0 && i == p.len() - 1 {
                assert(g[g.len() - 1].0 == k);
            } else {
                assert(p[i] == pt[i]);
                assert(present(pt, k));
                assert(present(t, k));
                let m = choose|m: int| 0 <= m < t.len() && (#[trigger] t[m]).0 == k;
                assert(g[m] == t[m]);
            }
        }
    }
}

/// The keys with copies, of keys held in strictly rising order, are in
/// strictly rising order, and they are the keys with copies.
pub proof fn lemma_positive_sorted(g: Grouped)
    requires
        strictly_sorted(g),
    ensures
        strictly_sorted(positive(g)),
        forall|k: Seq<char>| present(positive(g), k) <==> held(g, k) > 0,
    decreases g.len(),
{
    if g.len() > 0 {
        let t = g.drop_last();
        let x = g.last();
        assert forall|i: int, j: int| 0 <= i < j < t.len() implies key_lt(#[trigger] t[i].0, #[trigger] t[j].0) by {
            assert(t[i] == g[i] && t[j] == g[j]);
        }
        lemma_positive_sorted(t);
        lemma_positive_keys(t);
        assert forall|k: Seq<char>| present(t, k) implies key_lt(k, x.0) by {
            let i = choose|i: int| 0 <= i < t.len() && (#[trigger] t[i]).0 == k;
            assert(t[i] == g[i]);
            assert(x == g[g.len() - 1]);
        }
        let pt = positive(t);
        if x.1 > 0 {
            let p = positive(g);
            assert(p == pt.push(x));
            assert forall|i: int, j: int| 0 <= i < j < p.len() implies key_lt(#[trigger] p[i].0, #[trigger] p[j].0) by {
                assert(p[i] == pt[i]);
                if j < pt.len() {
                    assert(p[j] == pt[j]);
                    assert(key_lt(pt[i].0, pt[j].0));
                } else {
                    assert(p[j] == x);
                    assert(present(pt, pt[i].0));
                    assert(present(t, pt[i].0));
                    assert(key_lt(pt[i].0, x.0));
                }
            }
        }
        assert forall|k: Seq<char>| present(positive(g), k) <==> held(g, k) > 0 by {
            if k == x.0 {
                lemma_key_irreflexive(k);
                assert(!present(t, k));
                lemma_held_absent(t, k);
                assert(!present(pt, k));
                if x.1 > 0 {
                    assert(positive(g)[positive(g).len() - 1].0 == k);
                } else {
                    assert(positive(g) == pt);
                }
            } else {
                if x.1 > 0 {
                    let p = positive(g);
                    assert(p == pt.push(x));
                    if present(p, k) {
                        let i = choose|i: int| 0 <= i < p.len() && (#[trigger] p[i]).0 == k;
                        assert(i < pt.len());
                        assert(p[i] == pt[i]);
                    }
                    if present(pt, k) {
                        let i = choose|i: int| 0 <= i < pt.len() && (#[trigger] pt[i]).0 == k;
                        assert(p[i] == pt[i]);
                    }
                }
            }
        }
    }
}

/// The copies of each key a zone's identity holds are those its cards
/// hold in all.
pub proof fn lemma_zone_identity_held(cards: Seq<CardKey>, k: Seq<char>)
    ensures
        held(zone_identity(cards), k) == key_total(cards, k),
{
    lemma_held_positive(grouped(cards), k);
    lemma_grouped_held(cards, k);
}

/// A zone's identity is fixed by the copies of each key its cards hold in
/// all, and fixes them: however the cards are split, ordered or padded
/// with cards of no copies, two zones have one identity exactly when they
/// hold as many copies of every key.
pub proof fn lemma_zone_identity_is_totals(s1: Seq<CardKey>, s2: Seq<CardKey>)
    ensures
        (zone_identity(s1) == zone_identity(s2)) <==> (forall|k: Seq<char>| #[trigger] key_total(s1, k) == key_total(s2, k)),
{
    assert forall|k: Seq<char>| zone_identity(s1) == zone_identity(s2) implies #[trigger] key_total(s1, k) == key_total(s2, k) by {
        lemma_zone_identity_held(s1, k);
        lemma_zone_identity_held(s2, k);
    }
    if forall|k: Seq<char>| #[trigger] key_total(s1, k) == key_total(s2, k) {
        lemma_grouped_sorted(s1);
        lemma_grouped_sorted(s2);
        lemma_positive_sorted(grouped(s1));
        lemma_positive_sorted(grouped(s2));
        assert forall|k: Seq<char>| held(zone_identity(s1), k) == held(zone_identity(s2), k) by {
            lemma_zone_identity_held(s1, k);
            lemma_zone_identity_held(s2, k);
            assert(key_total(s1, k) == key_total(s2, k));
        }
        assert forall|k: Seq<char>| present(zone_identity(s1), k) <==> present(zone_identity(s2), k) by {
            lemma_grouped_held(s1, k);
            lemma_grouped_held(s2, k);
            assert(key_total(s1, k) == key_total(s2, k));
        }
        lemma_sorted_unique(zone_identity(s1), zone_identity(s2));
    }
}

/// Two decks whose games, zone names and card keys and copies agree have
/// one identity: art, display names and the other card details are not
/// part of it.
pub proof fn lemma_identity_reads_keys(a: Snapshot, b: Snapshot)
    requires
        snapshot_keys(a) == snapshot_keys(b),
    ensures
        identity_of(snapshot_keys(a)) == identity_of(snapshot_keys(b)),
{
}

/// The same list in another game is another deck.
pub proof fn lemma_identity_names_the_game(a: (Seq<char>, Seq<ZoneKey>), b: (Seq<char>, Seq<ZoneKey>))
    requires
        a.0 != b.0,
    ensures
        identity_of(a) != identity_of(b),
{
}

/// A zone with no card that has copies is the same as no zone at all.
pub proof fn lemma_empty_zone_is_absent(zones: Seq<ZoneKey>, i: int, zone: ZoneKey)
    requires
        0 <= i <= zones.len(),
        zone_identity(zone.1).len() == 0,
    ensures
        kept_zones(zones.insert(i, zone)) == kept_zones(zones),
        forall|game: Seq<char>| #[trigger] identity_of((game, zones.insert(i, zone))) == identity_of((game, zones)),
    decreases zones.len(),
{
    if i == zones.len() {
        assert(zones.insert(i, zone) =~= zones.push(zone));
        assert(zones.push(zone).drop_last() =~= zones);
    } else {
        lemma_empty_zone_is_absent(zones.drop_last(), i, zone);
        assert(zones.insert(i, zone).drop_last() =~= zones.drop_last().insert(i, zone));
        assert(zones.insert(i, zone).last() == zones.last());
    }
}

/// Zones whose names agree and whose cards hold as many copies of every
/// key give the deck one identity, whatever order, split or padding their
/// cards come in.
pub proof fn lemma_same_zone_totals(z1: Seq<ZoneKey>, z2: Seq<ZoneKey>)
    requires
        z1.len() == z2.len(),
        forall|i: int| 0 <= i < z1.len() ==> (#[trigger] z1[i]).0 == z2[i].0,
        forall|i: int, k: Seq<char>| 0 <= i < z1.len() ==> #[trigger] key_total(z1[i].1, k) == key_total(z2[i].1, k),
    ensures
        kept_zones(z1) == kept_zones(z2),
        forall|game: Seq<char>| #[trigger] identity_of((game, z1)) == identity_of((game, z2)),
    decreases z1.len(),
{
    if z1.len() > 0 {
        let n = z1.len() - 1;
        assert forall|i: int| 0 <= i < z1.drop_last().len() implies (#[trigger] z1.drop_last()[i]).0 == z2.drop_last()[i].0 by {
            assert(z1.drop_last()[i] == z1[i] && z2.drop_last()[i] == z2[i]);
        }
        assert forall|i: int, k: Seq<char>| 0 <= i < z1.drop_last().len() implies #[trigger] key_total(z1.drop_last()[i].1, k) == key_total(z2.drop_last()[i].1, k) by {
            assert(z1.drop_last()[i] == z1[i] && z2.drop_last()[i] == z2[i]);
            assert(key_total(z1[i].1, k) == key_total(z2[i].1, k));
        }
        lemma_same_zone_totals(z1.drop_last(), z2.drop_last());
        assert forall|k: Seq<char>| #[trigger] key_total(z1[n].1, k) == key_total(z2[n].1, k) by {}
        lemma_zone_identity_is_totals(z1[n].1, z2[n].1);
        assert(z1.last() == z1[n] && z2.last() == z2[n]);
    }
}

/// Reordering the cards of each zone does not change a deck's identity.
pub proof fn lemma_card_order_identity(z1: Seq<ZoneKey>, z2: Seq<ZoneKey>)
    requires
        z1.len() == z2.len(),
        forall|i: int| 0 <= i < z1.len() ==> (#[trigger] z1[i]).0 == z2[i].0 && z1[i].1.to_multiset() == z2[i].1.to_multiset(),
    ensures
        forall|game: Seq<char>| #[trigger] identity_of((game, z1)) == identity_of((game, z2)),
{
    assert forall|i: int, k: Seq<char>| 0 <= i < z1.len() implies #[trigger] key_total(z1[i].1, k) == key_total(z2[i].1, k) by {
        lemma_reordered_cards(z1[i].1, z2[i].1);
    }
    lemma_same_zone_totals(z1, z2);
}

// ---------------------------------------------------------------------------
// Zone order
// ---------------------------------------------------------------------------

/// No two zones share a name.
pub open spec fn names_distinct<T>(zs: Seq<(Seq<char>, T)>) -> bool {
    forall|i: int, j: int| 0 <= i < j < zs.len() ==> (#[trigger] zs[i]).0 != (#[trigger] zs[j]).0
}

/// Whether a zone of the name is among the zones.
pub open spec fn named<T>(zs: Seq<(Seq<char>, T)>, name: Seq<char>) -> bool {
    exists|i: int| 0 <= i < zs.len() && (#[trigger] zs[i]).0 == name
}

/// The zones' names never fall.
pub open spec fn names_rising(zs: Seq<IdZone>) -> bool {
    forall|i: int, j: int| 0 <= i < j < zs.len() ==> !key_lt(#[trigger] zs[j].0, #[trigger] zs[i].0)
}

proof fn lemma_kept_concat(a: Seq<ZoneKey>, b: Seq<ZoneKey>)
    ensures
        kept_zones(a + b) == kept_zones(a) + kept_zones(b),
    decreases b.len(),
{
    if b.len() > 0 {
        lemma_kept_concat(a, b.drop_last());
        assert((a + b).drop_last() =~= a + b.drop_last());
        assert((a + b).last() == b.last());
        let kb = kept_zones(b.drop_last());
        let cards = zone_identity(b.last().1);
        if cards.len() > 0 {
            assert(kept_zones(a) + kb.push((b.last().0, cards)) =~= (kept_zones(a) + kb).push((b.last().0, cards)));
        }
    } else {
        assert(a + b =~= a);
        assert(kept_zones(a) + kept_zones(b) =~= kept_zones(a));
    }
}

proof fn lemma_kept_names(zs: Seq<ZoneKey>)
    ensures
        forall|k: Seq<char>| named(kept_zones(zs), k) ==> named(zs, k),
        names_distinct(zs) ==> names_distinct(kept_zones(zs)),
    decreases zs.len(),
{
    if zs.len() > 0 {
        let t = zs.drop_last();
        lemma_kept_names(t);
        let kt = kept_zones(t);
        let cards = zone_identity(zs.last().1);
        assert forall|i: int| 0 <= i < t.len() implies (#[trigger] t[i]) == zs[i] by {}
        assert forall|k: Seq<char>| named(kept_zones(zs), k) implies named(zs, k) by {
            let ks = kept_zones(zs);
            let i = choose|i: int| 0 <= i < ks.len() && (#[trigger] ks[i]).0 == k;
            if cards.len() > 0 && i == ks.len() - 1 {
                assert(zs[zs.len() - 1].0 == k);
            } else {
                if cards.len() > 0 {
                    assert(ks == kt.push((zs.last().0, cards)));
                } else {
                    assert(ks == kt);
                }
                assert(ks[i] == kt[i]);
                assert(named(kt, k));
                assert(named(t, k));
                let m = choose|m: int| 0 <= m < t.len() && (#[trigger] t[m]).0 == k;
                assert(zs[m] == t[m]);
            }
        }
        if names_distinct(zs) {
            assert forall|i: int, j: int| 0 <= i < j < t.len() implies (#[trigger] t[i]).0 != (#[trigger] t[j]).0 by {
                assert(t[i] == zs[i] && t[j] == zs[j]);
            }
            if cards.len() > 0 {
                let ks = kept_zones(zs);
                assert(ks == kt.push((zs.last().0, cards)));
                assert forall|i: int, j: int| 0 <= i < j < ks.len() implies (#[trigger] ks[i]).0 != (#[trigger] ks[j]).0 by {
                    assert(ks[i] == kt[i]);
                    if j < kt.len() {
                        assert(ks[j] == kt[j]);
                    } else {
                        assert(named(kt, kt[i].0));
                        assert(named(t, kt[i].0));
                        let m = choose|m: int| 0 <= m < t.len() && (#[trigger] t[m]).0 == kt[i].0;
                        assert(zs[m] == t[m]);
                        assert(zs[zs.len() - 1] == zs.last());
                    }
                }
            }
        }
    }
}

/// The zones that hold a card, of zones in another order, are the same
/// zones in another order.
proof fn lemma_kept_reordered(s1: Seq<ZoneKey>, s2: Seq<ZoneKey>)
    requires
        s1.to_multiset() == s2.to_multiset(),
    ensures
        kept_zones(s1).to_multiset() == kept_zones(s2).to_multiset(),
    decreases s1.len(),
{
    broadcast use vstd::seq_lib::group_to_multiset_ensures;
    if s1.len() == 0 {
        assert(s2.len() == s2.to_multiset().len());
        assert(s2 =~= Seq::<ZoneKey>::empty());
    } else {
        let x = s1.last();
        assert(s1.contains(x));
        assert(s2.to_multiset().count(x) > 0);
        assert(s2.contains(x));
        let j = choose|j: int| 0 <= j < s2.len() && s2[j] == x;
        assert(s1.remove(s1.len() - 1) =~= s1.drop_last());
        assert(s1.drop_last().to_multiset() == s1.to_multiset().remove(x));
        assert(s2.remove(j).to_multiset() == s2.to_multiset().remove(x));
        lemma_kept_reordered(s1.drop_last(), s2.remove(j));
        let a = s2.take(j);
        let b = s2.skip(j + 1);
        assert(s2 =~= a + seq![x] + b);
        assert(s2.remove(j) =~= a + b);
        lemma_kept_concat(a + seq![x], b);
        lemma_kept_concat(a, seq![x]);
        lemma_kept_concat(a, b);
        assert(s1 =~= s1.drop_last() + seq![x]);
        lemma_kept_concat(s1.drop_last(), seq![x]);
        let kx = kept_zones(seq![x]);
        vstd::seq_lib::lemma_multiset_commutative(kept_zones(a) + kx, kept_zones(b));
        vstd::seq_lib::lemma_multiset_commutative(kept_zones(a), kx);
        vstd::seq_lib::lemma_multiset_commutative(kept_zones(a), kept_zones(b));
        vstd::seq_lib::lemma_multiset_commutative(kept_zones(s1.drop_last()), kx);
        assert(kept_zones(s1).to_multiset() =~= kept_zones(s2).to_multiset());
    }
}

proof fn lemma_zone_slot_bounds(zs: Seq<IdZone>, name: Seq<char>, i: int)
    requires
        0 <= i <= zs.len(),
    ensures
        i <= zone_slot(zs, name, i) <= zs.len(),
        forall|j: int| i <= j < zone_slot(zs, name, i) ==> !key_lt(name, #[trigger] zs[j].0),
        zone_slot(zs, name, i) < zs.len() ==> key_lt(name, zs[zone_slot(zs, name, i)].0),
    decreases zs.len() - i,
{
    if i < zs.len() && !key_lt(name, zs[i].0) {
        lemma_zone_slot_bounds(zs, name, i + 1);
    }
}

/// Zones put in name order are the same zones, with names that never fall.
pub proof fn lemma_sorted_zones(zs: Seq<IdZone>)
    ensures
        sorted_zones(zs).to_multiset() == zs.to_multiset(),
        names_rising(sorted_zones(zs)),
        forall|k: Seq<char>| named(sorted_zones(zs), k) <==> named(zs, k),
        names_distinct(zs) ==> names_distinct(sorted_zones(zs)),
    decreases zs.len(),
{
    broadcast use vstd::seq_lib::group_to_multiset_ensures;
    if zs.len() > 0 {
        let t = zs.drop_last();
        let x = zs.last();
        lemma_sorted_zones(t);
        let s = sorted_zones(t);
        lemma_zone_slot_bounds(s, x.0, 0);
        let p = zone_slot(s, x.0, 0);
        let r = s.insert(p, x);
        assert(r == sorted_zones(zs));
        vstd::seq_lib::to_multiset_insert(s, p, x);
        assert(zs =~= t.push(x));
        assert forall|m: int| p <= m < s.len() implies key_lt(x.0, #[trigger] s[m].0) by {
            if m > p {
                assert(!key_lt(s[m].0, s[p].0));
                if s[m].0 != s[p].0 {
                    lemma_key_order_total(s[m].0, s[p].0);
                    lemma_key_transitive(x.0, s[p].0, s[m].0);
                }
            }
        }
        assert forall|i: int, j: int| 0 <= i < j < r.len() implies !key_lt(#[trigger] r[j].0, #[trigger] r[i].0) by {
            if j < p {
                assert(r[i] == s[i] && r[j] == s[j]);
            } else if j == p {
                assert(r[i] == s[i]);
                assert(!key_lt(x.0, s[i].0));
            } else if i < p {
                assert(r[i] == s[i] && r[j] == s[j - 1]);
                assert(key_lt(x.0, s[j - 1].0));
                assert(!key_lt(x.0, s[i].0));
                if key_lt(s[j - 1].0, s[i].0) {
                    lemma_key_transitive(x.0, s[j - 1].0, s[i].0);
                }
            } else if i == p {
                assert(r[j] == s[j - 1]);
                assert(key_lt(x.0, s[j - 1].0));
                lemma_key_irreflexive(x.0);
                if key_lt(s[j - 1].0, x.0) {
                    lemma_key_transitive(x.0, s[j - 1].0, x.0);
                }
            } else {
                assert(r[i] == s[i - 1] && r[j] == s[j - 1]);
            }
        }
        assert forall|k: Seq<char>| named(r, k) <==> named(zs, k) by {
            if named(r, k) {
                let i = choose|i: int| 0 <= i < r.len() && (#[trigger] r[i]).0 == k;
                if i < p {
                    assert(r[i] == s[i]);
                    assert(named(s, k));
                } else if i > p {
                    assert(r[i] == s[i - 1]);
                    assert(named(s, k));
                } else {
                    assert(zs[zs.len() - 1].0 == k);
                }
                if named(t, k) {
                    let m = choose|m: int| 0 <= m < t.len() && (#[trigger] t[m]).0 == k;
                    assert(zs[m] == t[m]);
                }
            }
            if named(zs, k) {
                let i = choose|i: int| 0 <= i < zs.len() && (#[trigger] zs[i]).0 == k;
                if i < t.len() {
                    assert(t[i] == zs[i]);
                    assert(named(t, k));
                    assert(named(s, k));
                    let m = choose|m: int| 0 <= m < s.len() && (#[trigger] s[m]).0 == k;
                    if m < p {
                        assert(r[m] == s[m]);
                    } else {
                        assert(r[m + 1] == s[m]);
                    }
                } else {
                    assert(r[p] == x);
                }
            }
        }
        if names_distinct(zs) {
            assert forall|i: int, j: int| 0 <= i < j < t.len() implies (#[trigger] t[i]).0 != (#[trigger] t[j]).0 by {
                assert(t[i] == zs[i] && t[j] == zs[j]);
            }
            assert(!named(t, x.0)) by {
                if named(t, x.0) {
                    let m = choose|m: int| 0 <= m < t.len() && (#[trigger] t[m]).0 == x.0;
                    assert(zs[m] == t[m]);
                    assert(zs[zs.len() - 1] == x);
                }
            }
            assert forall|i: int, j: int| 0 <= i < j < r.len() implies (#[trigger] r[i]).0 != (#[trigger] r[j]).0 by {
                if i != p && j != p {
                    let a = if i < p { i } else { i - 1 };
                    let b = if j < p { j } else { j - 1 };
                    assert(r[i] == s[a] && r[j] == s[b]);
                } else if i == p {
                    assert(r[j] == s[j - 1]);
                    assert(named(s, s[j - 1].0));
                } else {
                    assert(r[i] == s[i]);
                    assert(named(s, s[i].0));
                }
            }
        }
    }
}

/// Two lists of zones whose names rise strictly and never repeat, holding
/// the same zones, are one list.
proof fn lemma_rising_unique(s1: Seq<IdZone>, s2: Seq<IdZone>)
    requires
        names_rising(s1),
        names_rising(s2),
        names_distinct(s1),
        names_distinct(s2),
        s1.to_multiset() == s2.to_multiset(),
    ensures
        s1 == s2,
    decreases s1.len(),
{
    broadcast use vstd::seq_lib::group_to_multiset_ensures;
    if s1.len() == 0 || s2.len() == 0 {
        assert(s1.len() == s1.to_multiset().len());
        assert(s2.len() == s2.to_multiset().len());
        assert(s1 =~= s2);
    } else {
        let a = s1[0];
        let b = s2[0];
        assert(s1.contains(a));
        assert(s2.to_multiset().count(a) > 0);
        assert(s2.contains(a));
        assert(s2.contains(b));
        assert(s1.to_multiset().count(b) > 0);
        assert(s1.contains(b));
        if a != b {
            let i = choose|i: int| 0 <= i < s2.len() && s2[i] == a;
            let m = choose|m: int| 0 <= m < s1.len() && s1[m] == b;
            assert(i > 0 && m > 0);
            assert(s2[0].0 != s2[i].0);
            assert(s1[0].0 != s1[m].0);
            assert(!key_lt(s2[i].0, s2[0].0));
            assert(!key_lt(s1[m].0, s1[0].0));
            lemma_key_order_total(a.0, b.0);
        }
        assert(s1.remove(0) =~= s1.drop_first());
        assert(s2.remove(0) =~= s2.drop_first());
        let t1 = s1.drop_first();
        let t2 = s2.drop_first();
        assert forall|i: int, j: int| 0 <= i < j < t1.len() implies !key_lt(#[trigger] t1[j].0, #[trigger] t1[i].0) && t1[i].0 != t1[j].0 by {
            assert(t1[i] == s1[i + 1] && t1[j] == s1[j + 1]);
        }
        assert forall|i: int, j: int| 0 <= i < j < t2.len() implies !key_lt(#[trigger] t2[j].0, #[trigger] t2[i].0) && t2[i].0 != t2[j].0 by {
            assert(t2[i] == s2[i + 1] && t2[j] == s2[j + 1]);
        }
        lemma_rising_unique(t1, t2);
        assert(s1 =~= seq![a] + t1);
        assert(s2 =~= seq![b] + t2);
    }
}

/// The order of a deck's zones does not change its identity, when no two
/// zones share a name.
pub proof fn lemma_zone_order_identity(z1: Seq<ZoneKey>, z2: Seq<ZoneKey>)
    requires
        z1.to_multiset() == z2.to_multiset(),
        names_distinct(z1),
        names_distinct(z2),
    ensures
        forall|game: Seq<char>| #[trigger] identity_of((game, z1)) == identity_of((game, z2)),
{
    lemma_kept_reordered(z1, z2);
    lemma_kept_names(z1);
    lemma_kept_names(z2);
    lemma_sorted_zones(kept_zones(z1));
    lemma_sorted_zones(kept_zones(z2));
    lemma_rising_unique(sorted_zones(kept_zones(z1)), sorted_zones(kept_zones(z2)));
}

// ---------------------------------------------------------------------------
// What an identity says
// ---------------------------------------------------------------------------

/// The cards of the zones named `name`, in zone order.
pub open spec fn cards_of(zs: Seq<ZoneKey>, name: Seq<char>) -> Seq<CardKey>
    decreases zs.len(),
{
    if zs.len() == 0 {
        Seq::empty()
    } else {
        cards_of(zs.drop_last(), name) + if zs.last().0 == name {
            zs.last().1
        } else {
            Seq::empty()
        }
    }
}

/// The copies of `key` the zones named `name` hold in all.
pub open spec fn zone_total(zs: Seq<ZoneKey>, name: Seq<char>, key: Seq<char>) -> nat {
    key_total(cards_of(zs, name), key)
}

/// The cards an identity lists under the zone `name`; none when it lists
/// no such zone.
pub open spec fn zone_of(ks: Seq<IdZone>, name: Seq<char>) -> Grouped
    decreases ks.len(),
{
    if ks.len() == 0 {
        Seq::empty()
    } else if ks.last().0 == name {
        ks.last().1
    } else {
        zone_of(ks.drop_last(), name)
    }
}

proof fn lemma_kept_zone_of(zs: Seq<ZoneKey>, name: Seq<char>)
    requires
        names_distinct(zs),
    ensures
        zone_of(kept_zones(zs), name) == zone_identity(cards_of(zs, name)),
        forall|i: int| 0 <= i < kept_zones(zs).len() ==> (#[trigger] kept_zones(zs)[i]).1.len() > 0,
    decreases zs.len(),
{
    if zs.len() == 0 {
        assert(grouped(Seq::<CardKey>::empty()) == Seq::<(Seq<char>, nat)>::empty());
        assert(zone_identity(Seq::<CardKey>::empty()) == Seq::<(Seq<char>, nat)>::empty());
        assert(cards_of(zs, name) == Seq::<CardKey>::empty());
    } else {
        let t = zs.drop_last();
        let x = zs.last();
        assert forall|i: int, j: int| 0 <= i < j < t.len() implies (#[trigger] t[i]).0 != (#[trigger] t[j]).0 by {
            assert(t[i] == zs[i] && t[j] == zs[j]);
        }
        lemma_kept_zone_of(t, name);
        lemma_kept_zone_of(t, x.0);
        lemma_kept_names(t);
        let kt = kept_zones(t);
        let zi = zone_identity(x.1);
        if zi.len() > 0 {
            assert(kept_zones(zs) == kt.push((x.0, zi)));
            assert(kt.push((x.0, zi)).drop_last() =~= kt);
        } else {
            assert(kept_zones(zs) == kt);
        }
        if x.0 == name {
            assert(!named(t, name)) by {
                if named(t, name) {
                    let m = choose|m: int| 0 <= m < t.len() && (#[trigger] t[m]).0 == name;
                    assert(zs[m] == t[m]);
                    assert(zs[zs.len() - 1] == x);
                }
            }
            lemma_cards_of_absent(t, name);
            assert(cards_of(zs, name) =~= x.1);
            assert(!named(kept_zones(t), name));
            lemma_zone_of_absent(kept_zones(t), name);
            if zi.len() == 0 {
                assert(zi =~= Seq::<(Seq<char>, nat)>::empty());
            }
        } else {
            assert(cards_of(zs, name) =~= cards_of(t, name));
        }
    }
}

proof fn lemma_cards_of_absent(zs: Seq<ZoneKey>, name: Seq<char>)
    requires
        !named(zs, name),
    ensures
        cards_of(zs, name) == Seq::<CardKey>::empty(),
    decreases zs.len(),
{
    if zs.len() > 0 {
        let t = zs.drop_last();
        assert(!named(t, name)) by {
            if named(t, name) {
                let m = choose|m: int| 0 <= m < t.len() && (#[trigger] t[m]).0 == name;
                assert(zs[m] == t[m]);
            }
        }
        lemma_cards_of_absent(t, name);
        assert(zs[zs.len() - 1] == zs.last());
        assert(cards_of(zs, name) =~= Seq::<CardKey>::empty());
    }
}

proof fn lemma_zone_of_absent(ks: Seq<IdZone>, name: Seq<char>)
    requires
        !named(ks, name),
    ensures
        zone_of(ks, name) == Seq::<(Seq<char>, nat)>::empty(),
    decreases ks.len(),
{
    if ks.len() > 0 {
        let t = ks.drop_last();
        assert(!named(t, name)) by {
            if named(t, name) {
                let m = choose|m: int| 0 <= m < t.len() && (#[trigger] t[m]).0 == name;
                assert(ks[m] == t[m]);
            }
        }
        assert(ks[ks.len() - 1] == ks.last());
        lemma_zone_of_absent(t, name);
    }
}

/// Where a zone of a name is found in a list of zones that never repeat a
/// name.
proof fn lemma_zone_of_at(ks: Seq<IdZone>, i: int)
    requires
        names_distinct(ks),
        0 <= i < ks.len(),
    ensures
        zone_of(ks, ks[i].0) == ks[i].1,
    decreases ks.len(),
{
    let t = ks.drop_last();
    if i < ks.len() - 1 {
        assert(ks[ks.len() - 1] == ks.last());
        assert(t[i] == ks[i]);
        assert forall|a: int, b: int| 0 <= a < b < t.len() implies (#[trigger] t[a]).0 != (#[trigger] t[b]).0 by {
            assert(t[a] == ks[a] && t[b] == ks[b]);
        }
        lemma_zone_of_at(t, i);
    }
}

proof fn lemma_zone_of_named(ks: Seq<IdZone>, name: Seq<char>)
    requires
        zone_of(ks, name).len() > 0,
    ensures
        exists|i: int| 0 <= i < ks.len() && (#[trigger] ks[i]).0 == name && ks[i].1 == zone_of(ks, name),
    decreases ks.len(),
{
    if ks.last().0 == name {
        assert(ks[ks.len() - 1] == ks.last());
    } else {
        let t = ks.drop_last();
        lemma_zone_of_named(t, name);
        let i = choose|i: int| 0 <= i < t.len() && (#[trigger] t[i]).0 == name && t[i].1 == zone_of(t, name);
        assert(ks[i] == t[i]);
    }
}

/// Lists of zones that never repeat a name, whose names rise, every zone
/// holding a card, that list the same cards under every name, are one list.
proof fn lemma_rising_zone_of(s1: Seq<IdZone>, s2: Seq<IdZone>)
    requires
        names_rising(s1),
        names_rising(s2),
        names_distinct(s1),
        names_distinct(s2),
        forall|i: int| 0 <= i < s1.len() ==> (#[trigger] s1[i]).1.len() > 0,
        forall|i: int| 0 <= i < s2.len() ==> (#[trigger] s2[i]).1.len() > 0,
        forall|name: Seq<char>| #[trigger] zone_of(s1, name) == zone_of(s2, name),
    ensures
        s1 == s2,
    decreases s1.len() + s2.len(),
{
    if s1.len() == 0 && s2.len() == 0 {
        assert(s1 =~= s2);
    } else if s1.len() == 0 {
        lemma_zone_of_at(s2, 0);
        lemma_zone_of_absent(s1, s2[0].0);
    } else if s2.len() == 0 {
        lemma_zone_of_at(s1, 0);
        lemma_zone_of_absent(s2, s1[0].0);
    } else {
        let a = s1[0];
        let b = s2[0];
        lemma_zone_of_at(s1, 0);
        lemma_zone_of_at(s2, 0);
        assert(zone_of(s2, a.0) == a.1);
        lemma_zone_of_named(s2, a.0);
        let i = choose|i: int| 0 <= i < s2.len() && (#[trigger] s2[i]).0 == a.0 && s2[i].1 == zone_of(s2, a.0);
        assert(zone_of(s1, b.0) == b.1);
        lemma_zone_of_named(s1, b.0);
        let m = choose|m: int| 0 <= m < s1.len() && (#[trigger] s1[m]).0 == b.0 && s1[m].1 == zone_of(s1, b.0);
        if a.0 != b.0 {
            assert(i > 0 && m > 0);
            assert(!key_lt(s2[i].0, s2[0].0));
            assert(!key_lt(s1[m].0, s1[0].0));
            lemma_key_order_total(a.0, b.0);
        }
        assert(a == b);
        let t1 = s1.drop_first();
        let t2 = s2.drop_first();
        assert forall|x: int, y: int| 0 <= x < y < t1.len() implies !key_lt(#[trigger] t1[y].0, #[trigger] t1[x].0) && t1[x].0 != t1[y].0 by {
            assert(t1[x] == s1[x + 1] && t1[y] == s1[y + 1]);
        }
        assert forall|x: int, y: int| 0 <= x < y < t2.len() implies !key_lt(#[trigger] t2[y].0, #[trigger] t2[x].0) && t2[x].0 != t2[y].0 by {
            assert(t2[x] == s2[x + 1] && t2[y] == s2[y + 1]);
        }
        assert forall|x: int| 0 <= x < t1.len() implies (#[trigger] t1[x]).1.len() > 0 by {
            assert(t1[x] == s1[x + 1]);
        }
        assert forall|x: int| 0 <= x < t2.len() implies (#[trigger] t2[x]).1.len() > 0 by {
            assert(t2[x] == s2[x + 1]);
        }
        assert forall|name: Seq<char>| #[trigger] zone_of(t1, name) == zone_of(t2, name) by {
            if name != a.0 {
                lemma_zone_of_tail(s1, name);
                lemma_zone_of_tail(s2, name);
            } else {
                assert(!named(t1, name)) by {
                    if named(t1, name) {
                        let x = choose|x: int| 0 <= x < t1.len() && (#[trigger] t1[x]).0 == name;
                        assert(s1[x + 1] == t1[x]);
                    }
                }
                assert(!named(t2, name)) by {
                    if named(t2, name) {
                        let x = choose|x: int| 0 <= x < t2.len() && (#[trigger] t2[x]).0 == name;
                        assert(s2[x + 1] == t2[x]);
                    }
                }
                lemma_zone_of_absent(t1, name);
                lemma_zone_of_absent(t2, name);
            }
        }
        lemma_rising_zone_of(t1, t2);
        assert(s1 =~= seq![a] + t1);
        assert(s2 =~= seq![b] + t2);
    }
}

proof fn lemma_zone_of_tail(ks: Seq<IdZone>, name: Seq<char>)
    requires
        ks.len() > 0,
        ks[0].0 != name,
    ensures
        zone_of(ks, name) == zone_of(ks.drop_first(), name),
    decreases ks.len(),
{
    if ks.len() > 1 {
        let t = ks.drop_last();
        assert(t[0] == ks[0]);
        lemma_zone_of_tail(t, name);
        assert(ks.drop_first().drop_last() =~= t.drop_first());
        assert(ks.drop_first().last() == ks.last());
    } else {
        assert(ks.drop_first() =~= Seq::<IdZone>::empty());
        assert(ks.last() == ks[0]);
        assert(ks.drop_last() =~= Seq::<IdZone>::empty());
    }
}

/// Putting zones that never repeat a name in name order lists the same
/// cards under every name.
proof fn lemma_sorted_zone_of(zs: Seq<IdZone>, name: Seq<char>)
    requires
        names_distinct(zs),
    ensures
        zone_of(sorted_zones(zs), name) == zone_of(zs, name),
    decreases zs.len(),
{
    if zs.len() > 0 {
        let t = zs.drop_last();
        let x = zs.last();
        assert forall|i: int, j: int| 0 <= i < j < t.len() implies (#[trigger] t[i]).0 != (#[trigger] t[j]).0 by {
            assert(t[i] == zs[i] && t[j] == zs[j]);
        }
        lemma_sorted_zone_of(t, name);
        lemma_sorted_zones(t);
        let s = sorted_zones(t);
        lemma_zone_slot_bounds(s, x.0, 0);
        let p = zone_slot(s, x.0, 0);
        assert(!named(t, x.0)) by {
            if named(t, x.0) {
                let m = choose|m: int| 0 <= m < t.len() && (#[trigger] t[m]).0 == x.0;
                assert(zs[m] == t[m]);
                assert(zs[zs.len() - 1] == x);
            }
        }
        lemma_zone_of_insert(s, p, x, name);
    }
}

proof fn lemma_zone_of_insert(s: Seq<IdZone>, p: int, x: IdZone, name: Seq<char>)
    requires
        0 <= p <= s.len(),
        !named(s, x.0),
    ensures
        zone_of(s.insert(p, x), name) == if x.0 == name {
            x.1
        } else {
            zone_of(s, name)
        },
    decreases s.len(),
{
    let r = s.insert(p, x);
    if p == s.len() {
        assert(r.drop_last() =~= s);
        assert(r.last() == x);
        if x.0 == name {
        }
    } else {
        let t = s.drop_last();
        assert(!named(t, x.0)) by {
            if named(t, x.0) {
                let m = choose|m: int| 0 <= m < t.len() && (#[trigger] t[m]).0 == x.0;
                assert(s[m] == t[m]);
            }
        }
        assert(r.drop_last() =~= t.insert(p, x));
        assert(r.last() == s.last());
        assert(s[s.len() - 1] == s.last());
        lemma_zone_of_insert(t, p, x, name);
        if x.0 == name {
            assert(s.last().0 != name);
        }
    }
}

/// Two decks with no zone name twice have one identity exactly when they
/// are of one game and every zone holds as many copies of every key in
/// both: card order, zone order, how copies are split over entries, and
/// zones that hold nothing do not count.
pub proof fn lemma_identity_is_zone_totals(a: (Seq<char>, Seq<ZoneKey>), b: (Seq<char>, Seq<ZoneKey>))
    requires
        names_distinct(a.1),
        names_distinct(b.1),
    ensures
        identity_of(a) == identity_of(b) <==> (a.0 == b.0 && forall|name: Seq<char>, key: Seq<char>| #[trigger] zone_total(a.1, name, key) == zone_total(b.1, name, key)),
{
    let k1 = kept_zones(a.1);
    let k2 = kept_zones(b.1);
    lemma_kept_names(a.1);
    lemma_kept_names(b.1);
    lemma_sorted_zones(k1);
    lemma_sorted_zones(k2);
    let s1 = sorted_zones(k1);
    let s2 = sorted_zones(k2);
    if identity_of(a) == identity_of(b) {
        assert forall|name: Seq<char>, key: Seq<char>| #[trigger] zone_total(a.1, name, key) == zone_total(b.1, name, key) by {
            lemma_sorted_zone_of(k1, name);
            lemma_sorted_zone_of(k2, name);
            lemma_kept_zone_of(a.1, name);
            lemma_kept_zone_of(b.1, name);
            lemma_zone_identity_held(cards_of(a.1, name), key);
            lemma_zone_identity_held(cards_of(b.1, name), key);
        }
    }
    if a.0 == b.0 && forall|name: Seq<char>, key: Seq<char>| #[trigger] zone_total(a.1, name, key) == zone_total(b.1, name, key) {
        assert forall|name: Seq<char>| #[trigger] zone_of(s1, name) == zone_of(s2, name) by {
            assert forall|key: Seq<char>| #[trigger] key_total(cards_of(a.1, name), key) == key_total(cards_of(b.1, name), key) by {
                assert(zone_total(a.1, name, key) == zone_total(b.1, name, key));
            }
            lemma_zone_identity_is_totals(cards_of(a.1, name), cards_of(b.1, name));
            lemma_sorted_zone_of(k1, name);
            lemma_sorted_zone_of(k2, name);
            lemma_kept_zone_of(a.1, name);
            lemma_kept_zone_of(b.1, name);
        }
        lemma_kept_zone_of(a.1, Seq::empty());
        lemma_kept_zone_of(b.1, Seq::empty());
        lemma_sorted_nonempty(k1);
        lemma_sorted_nonempty(k2);
        lemma_rising_zone_of(s1, s2);
    }
}

/// Two snapshots, neither with a zone name twice, identify one deck exactly
/// when they are of one game and every zone holds as many copies of every
/// key in both.
pub proof fn lemma_snapshot_identity(a: Snapshot, b: Snapshot)
    requires
        names_distinct(zone_keys(a.zones@)),
        names_distinct(zone_keys(b.zones@)),
    ensures
        identity_of(snapshot_keys(a)) == identity_of(snapshot_keys(b)) <==> (a.game@ == b.game@ && forall|name: Seq<char>, key: Seq<char>| #[trigger] zone_total(zone_keys(a.zones@), name, key) == zone_total(zone_keys(b.zones@), name, key)),
{
    lemma_identity_is_zone_totals(snapshot_keys(a), snapshot_keys(b));
}

proof fn lemma_sorted_nonempty(zs: Seq<IdZone>)
    requires
        forall|i: int| 0 <= i < zs.len() ==> (#[trigger] zs[i]).1.len() > 0,
    ensures
        forall|i: int| 0 <= i < sorted_zones(zs).len() ==> (#[trigger] sorted_zones(zs)[i]).1.len() > 0,
{
    broadcast use vstd::seq_lib::group_to_multiset_ensures;
    lemma_sorted_zones(zs);
    let s = sorted_zones(zs);
    assert forall|i: int| 0 <= i < s.len() implies (#[trigger] s[i]).1.len() > 0 by {
        assert(s.contains(s[i]));
        assert(s.to_multiset().count(s[i]) > 0);
        assert(zs.contains(s[i]));
    }
}

} // verus!
