//! Game-agnostic table state: cards, their seats and zones, and the one
//! intent that moves them.
use vstd::prelude::*;

verus! {

#[derive(Debug, Clone, Copy, PartialEq, Eq, PartialOrd, Ord, Hash, Structural)]
pub struct CardId(pub u32);

#[derive(Debug, Clone, Copy, PartialEq, Eq, PartialOrd, Ord, Hash, Structural)]
pub struct PlayerId(pub u8);

#[derive(Debug, Clone, Copy, PartialEq, Eq, PartialOrd, Ord, Hash, Structural)]
pub enum Zone {
    Hand,
    Board,
    Plugin(u16),
}

/// What a card shows; a face with no name is a hidden face.
#[derive(Debug, Clone, PartialEq, Eq, PartialOrd, Ord, Hash)]
pub struct CardFace {
    pub name: String,
    pub tint: [u8; 3],
    pub foil: bool,
    pub kind: Option<String>,
    pub energy: Option<u8>,
    pub power: Option<u8>,
    pub might: Option<u8>,
    pub domain: Vec<String>,
}

impl Default for CardFace {
    fn default() -> (face: Self)
        ensures
            face@.name.len() == 0,
            face.tint@ == seq![0u8, 0u8, 0u8],
            !face.foil,
            face.kind is None,
            face.energy is None,
            face.power is None,
            face.might is None,
            face.domain@.len() == 0,
    {
        CardFace::hidden()
    }
}

/// The plain values a face carries.
pub struct FaceView {
    pub name: Seq<char>,
    pub tint: Seq<u8>,
    pub foil: bool,
    pub kind: Option<Seq<char>>,
    pub energy: Option<u8>,
    pub power: Option<u8>,
    pub might: Option<u8>,
    pub domain: Seq<Seq<char>>,
}

impl View for CardFace {
    type V = FaceView;

    open spec fn view(&self) -> FaceView {
        FaceView {
            name: self.name@,
            tint: self.tint@,
            foil: self.foil,
            kind: match self.kind {
                Some(k) => Some(k@),
                None => None,
            },
            energy: self.energy,
            power: self.power,
            might: self.might,
            domain: self.domain@.map_values(|d: String| d@),
        }
    }
}

impl CardFace {
    pub fn named(name: &str) -> (face: Self)
        ensures
            face@.name == name@,
            face.tint@ == seq![128u8, 128u8, 128u8],
            !face.foil,
            face.kind is None,
            face.energy is None,
            face.power is None,
            face.might is None,
            face.domain@.len() == 0,
    {
        Self {
            name: name.to_owned(),
            tint: [128, 128, 128],
            foil: false,
            kind: None,
            energy: None,
            power: None,
            might: None,
            domain: Vec::new(),
        }
    }

    pub fn with_domain(self, domain: Vec<String>) -> (face: Self)
        ensures
            face.domain == domain,
            face.name == self.name,
            face.tint == self.tint,
            face.foil == self.foil,
            face.kind == self.kind,
            face.energy == self.energy,
            face.power == self.power,
            face.might == self.might,
    {
        let mut face = self;
        face.domain = domain;
        face
    }

    pub fn with_kind(self, kind: &str) -> (face: Self)
        ensures
            face.kind matches Some(k) && k@ == kind@,
            face.domain == self.domain,
            face.name == self.name,
            face.tint == self.tint,
            face.foil == self.foil,
            face.energy == self.energy,
            face.power == self.power,
            face.might == self.might,
    {
        let mut face = self;
        face.kind = Some(kind.to_owned());
        face
    }

    pub fn with_cost(self, energy: Option<u8>, power: Option<u8>) -> (face: Self)
        ensures
            face.energy == energy,
            face.power == power,
            face.kind == self.kind,
            face.domain == self.domain,
            face.name == self.name,
            face.tint == self.tint,
            face.foil == self.foil,
            face.might == self.might,
    {
        let mut face = self;
        face.energy = energy;
        face.power = power;
        face
    }

    pub fn with_might(self, might: Option<u8>) -> (face: Self)
        ensures
            face.might == might,
            face.energy == self.energy,
            face.power == self.power,
            face.kind == self.kind,
            face.domain == self.domain,
            face.name == self.name,
            face.tint == self.tint,
            face.foil == self.foil,
    {
        let mut face = self;
        face.might = might;
        face
    }

    /// The face of a card whose identity is not shown.
    pub fn hidden() -> (face: Self)
        ensures
            face@.name.len() == 0,
            face.tint@ == seq![0u8, 0u8, 0u8],
            !face.foil,
            face.kind is None,
            face.energy is None,
            face.power is None,
            face.might is None,
            face.domain@.len() == 0,
    {
        Self {
            name: String::new(),
            tint: [0, 0, 0],
            foil: false,
            kind: None,
            energy: None,
            power: None,
            might: None,
            domain: Vec::new(),
        }
    }

    pub fn is_hidden(&self) -> (r: bool)
        ensures
            r == (self@.name.len() == 0),
    {
        self.name.as_str().is_empty()
    }
}

#[derive(Debug, Clone, PartialEq, Eq, PartialOrd, Ord, Hash)]
pub struct Card {
    pub id: CardId,
    pub owner: PlayerId,
    pub seat: PlayerId,
    pub zone: Zone,
    pub face: CardFace,
}

#[derive(Debug, Clone, Copy, PartialEq, Eq)]
pub enum Intent {
    MoveCard { card: CardId, to: Zone, seat: PlayerId, index: usize },
}

/// The cards on the table, in table order, and the next fresh id.
#[derive(Debug, Clone, PartialEq, Eq)]
pub struct Table {
    cards: Vec<Card>,
    next_id: u32,
}

/// Whether `c` sits at `seat` in `zone`.
pub open spec fn in_area(c: Card, seat: PlayerId, zone: Zone) -> bool {
    c.seat == seat && c.zone == zone
}

/// Index of the first card with id `id`.
pub open spec fn position(s: Seq<Card>, id: CardId) -> Option<int>
    decreases s.len(),
{
    if s.len() == 0 {
        None
    } else if s[0].id == id {
        Some(0)
    } else {
        match position(s.drop_first(), id) {
            Some(k) => Some(k + 1),
            None => None,
        }
    }
}

/// Where a card lands when it becomes the `n`-th card of `seat`'s `zone`:
/// the index of the current `n`-th such card, or the end when there is none.
pub open spec fn landing(s: Seq<Card>, seat: PlayerId, zone: Zone, n: int) -> int
    decreases s.len(),
{
    if s.len() == 0 {
        0
    } else if in_area(s[0], seat, zone) && n == 0 {
        0
    } else if in_area(s[0], seat, zone) {
        1 + landing(s.drop_first(), seat, zone, n - 1)
    } else {
        1 + landing(s.drop_first(), seat, zone, n)
    }
}

/// The cards of `seat`'s `zone`, in table order.
pub open spec fn area(s: Seq<Card>, seat: PlayerId, zone: Zone) -> Seq<Card>
    decreases s.len(),
{
    if s.len() == 0 {
        Seq::empty()
    } else if in_area(s.last(), seat, zone) {
        area(s.drop_last(), seat, zone).push(s.last())
    } else {
        area(s.drop_last(), seat, zone)
    }
}

/// Whether `intent` would change the table `s`.
pub open spec fn changes_spec(s: Seq<Card>, intent: Intent) -> bool {
    match intent {
        Intent::MoveCard { card, to, seat, index } => match position(s, card) {
            None => false,
            Some(from) => s[from].zone != to || s[from].seat != seat || landing(
                s.remove(from),
                seat,
                to,
                index as int,
            ) != from,
        },
    }
}

/// The table `s` after moving a card as `intent` says.
pub open spec fn moved(s: Seq<Card>, intent: Intent) -> Seq<Card> {
    match intent {
        Intent::MoveCard { card, to, seat, index } => match position(s, card) {
            None => s,
            Some(from) => {
                let rest = s.remove(from);
                let c = Card { zone: to, seat: seat, ..s[from] };
                rest.insert(landing(rest, seat, to, index as int), c)
            },
        },
    }
}

pub open spec fn ids(s: Seq<Card>) -> Seq<CardId> {
    s.map_values(|c: Card| c.id)
}

pub proof fn lemma_position(s: Seq<Card>, id: CardId)
    ensures
        position(s, id) matches Some(k) ==> 0 <= k < s.len() && s[k].id == id && forall|j: int|
            0 <= j < k ==> s[j].id != id,
        position(s, id) is None ==> forall|j: int| 0 <= j < s.len() ==> s[j].id != id,
    decreases s.len(),
{
    if s.len() > 0 && s[0].id != id {
        lemma_position(s.drop_first(), id);
        if let Some(k) = position(s.drop_first(), id) {
            assert forall|j: int| 0 <= j < k + 1 implies s[j].id != id by {
                if j > 0 {
                    assert(s[j] == s.drop_first()[j - 1]);
                }
            }
        } else {
            assert forall|j: int| 0 <= j < s.len() implies s[j].id != id by {
                if j > 0 {
                    assert(s[j] == s.drop_first()[j - 1]);
                }
            }
        }
    }
}

pub proof fn lemma_landing_bounds(s: Seq<Card>, seat: PlayerId, zone: Zone, n: int)
    ensures
        0 <= landing(s, seat, zone, n) <= s.len(),
    decreases s.len(),
{
    if s.len() > 0 {
        lemma_landing_bounds(s.drop_first(), seat, zone, n - 1);
        lemma_landing_bounds(s.drop_first(), seat, zone, n);
    }
}

impl Table {
    pub closed spec fn spec_cards(&self) -> Seq<Card> {
        self.cards@
    }

    pub closed spec fn spec_next_id(&self) -> u32 {
        self.next_id
    }

    /// Every card has its own id, and every id is below the next fresh one.
    pub open spec fn wf(&self) -> bool {
        distinct_ids(self.spec_cards()) && ids_below(self.spec_cards(), self.spec_next_id())
    }

    pub fn new() -> (t: Self)
        ensures
            t.spec_cards().len() == 0,
            t.spec_next_id() == 0,
            t.wf(),
    {
        Table { cards: Vec::new(), next_id: 0 }
    }

    pub fn cards(&self) -> (out: &[Card])
        ensures
            out@ == self.spec_cards(),
    {
        self.cards.as_slice()
    }

    pub fn len(&self) -> (n: usize)
        ensures
            n == self.spec_cards().len(),
    {
        self.cards.len()
    }

    pub fn is_empty(&self) -> (r: bool)
        ensures
            r == (self.spec_cards().len() == 0),
    {
        self.cards.len() == 0
    }

    pub fn add(&mut self, owner: PlayerId, zone: Zone, name: &str, tint: [u8; 3]) -> (id: CardId)
        requires
            old(self).spec_next_id() < u32::MAX,
        ensures
            id.0 == old(self).spec_next_id(),
            final(self).spec_next_id() == old(self).spec_next_id() + 1,
            final(self).spec_cards().len() == old(self).spec_cards().len() + 1,
            final(self).spec_cards().drop_last() == old(self).spec_cards(),
            final(self).spec_cards().last().id == id,
            final(self).spec_cards().last().owner == owner,
            final(self).spec_cards().last().seat == owner,
            final(self).spec_cards().last().zone == zone,
            final(self).spec_cards().last().face@.name == name@,
            final(self).spec_cards().last().face.tint == tint,
            !final(self).spec_cards().last().face.foil,
            final(self).spec_cards().last().face.kind is None,
            final(self).spec_cards().last().face.energy is None,
            final(self).spec_cards().last().face.power is None,
            final(self).spec_cards().last().face.might is None,
            final(self).spec_cards().last().face.domain@.len() == 0,
            old(self).wf() ==> final(self).wf(),
    {
        let face = CardFace {
            name: name.to_owned(),
            tint,
            foil: false,
            kind: None,
            energy: None,
            power: None,
            might: None,
            domain: Vec::new(),
        };
        self.add_face(owner, zone, face)
    }

    pub fn add_face(&mut self, owner: PlayerId, zone: Zone, face: CardFace) -> (id: CardId)
        requires
            old(self).spec_next_id() < u32::MAX,
        ensures
            id.0 == old(self).spec_next_id(),
            final(self).spec_next_id() == old(self).spec_next_id() + 1,
            final(self).spec_cards() == old(self).spec_cards().push(
                Card { id, owner, seat: owner, zone, face },
            ),
            old(self).wf() ==> final(self).wf(),
    {
        let id = CardId(self.next_id);
        self.next_id = self.next_id + 1;
        self.cards.push(Card { id, owner, seat: owner, zone, face });
        id
    }

    /// Puts `card` on the table unless its id is taken; fresh ids stay above it.
    #[verifier::loop_isolation(false)]
    pub fn insert_card(&mut self, card: Card) -> (r: bool)
        requires
            card.id.0 < u32::MAX,
        ensures
            r == (position(old(self).spec_cards(), card.id) is None),
            r ==> final(self).spec_cards() == old(self).spec_cards().push(card),
            r ==> final(self).spec_next_id() == if old(self).spec_next_id() > card.id.0 {
                old(self).spec_next_id()
            } else {
                (card.id.0 + 1) as u32
            },
            !r ==> *final(self) == *old(self),
            old(self).wf() ==> final(self).wf(),
    {
        proof {
            lemma_position(self.cards@, card.id);
        }
        let mut i: usize = 0;
        while i < self.cards.len()
            invariant
                i <= self.cards@.len(),
                forall|j: int| 0 <= j < i ==> self.cards@[j].id != card.id,
            decreases self.cards@.len() - i,
        {
            if self.cards[i].id == card.id {
                return false;
            }
            i = i + 1;
        }
        let bumped = card.id.0 + 1;
        if bumped > self.next_id {
            self.next_id = bumped;
        }
        self.cards.push(card);
        true
    }

    pub fn get(&self, id: CardId) -> (r: Option<&Card>)
        ensures
            match position(self.spec_cards(), id) {
                Some(k) => r matches Some(c) && *c == self.spec_cards()[k],
                None => r is None,
            },
    {
        proof {
            lemma_position(self.cards@, id);
        }
        match self.find_index(id) {
            Some(k) => {
                assert(position(self.spec_cards(), id) == Some(k as int));
                let c = &self.cards[k];
                assert(*c == self.spec_cards()[k as int]);
                Some(c)
            },
            None => None,
        }
    }

    #[verifier::loop_isolation(false)]
    fn find_index(&self, id: CardId) -> (r: Option<usize>)
        ensures
            r matches Some(k) ==> position(self.spec_cards(), id) == Some(k as int),
            r is None ==> position(self.spec_cards(), id) is None,
    {
        proof {
            lemma_position(self.cards@, id);
        }
        let mut i: usize = 0;
        while i < self.cards.len()
            invariant
                i <= self.cards@.len(),
                forall|j: int| 0 <= j < i ==> self.cards@[j].id != id,
            decreases self.cards@.len() - i,
        {
            if self.cards[i].id == id {
                return Some(i);
            }
            i = i + 1;
        }
        None
    }

    /// The card with id `id`, to change in place. What the caller writes
    /// through it lands in that card's slot, and nothing else changes.
    pub fn get_mut(&mut self, id: CardId) -> (r: Option<&mut Card>)
        ensures
            match position(old(self).spec_cards(), id) {
                Some(k) => r matches Some(c) && *c == old(self).spec_cards()[k]
                    && final(self).spec_cards() == old(self).spec_cards().update(k, *final(c))
                    && final(self).spec_next_id() == old(self).spec_next_id(),
                None => r is None && *final(self) == *old(self),
            },
    {
        proof {
            lemma_position(self.cards@, id);
        }
        match self.find_index(id) {
            Some(k) => {
                let c = &mut self.cards[k];
                Some(c)
            },
            None => None,
        }
    }

    /// The face of the card at table position `i`, to change in place:
    /// what the caller writes through it becomes that card's face, and
    /// nothing else changes.
    pub fn face_mut(&mut self, i: usize) -> (face: &mut CardFace)
        requires
            i < old(self).spec_cards().len(),
        ensures
            *face == old(self).spec_cards()[i as int].face,
            final(self).spec_cards() == old(self).spec_cards().update(
                i as int,
                Card { face: *final(face), ..old(self).spec_cards()[i as int] },
            ),
            final(self).spec_next_id() == old(self).spec_next_id(),
            old(self).wf() ==> final(self).wf(),
    {
        let c = &mut self.cards[i];
        &mut c.face
    }

    /// Keeps the cards `keep` answers yes for, in table order.
    pub fn retain<F: Fn(&Card) -> bool>(&mut self, keep: F)
        requires
            forall|c: &Card| call_requires(keep, (c,)),
        ensures
            final(self).spec_next_id() == old(self).spec_next_id(),
            old(self).wf() ==> final(self).wf(),
            exists|answers: Seq<bool>| {
                &&& answers.len() == old(self).spec_cards().len()
                &&& forall|i: int| 0 <= i < answers.len() ==> call_ensures(
                    keep,
                    (&old(self).spec_cards()[i],),
                    #[trigger] answers[i],
                )
                &&& final(self).spec_cards() == kept(old(self).spec_cards(), answers)
            },
    {
        let ghost start = self.cards@;
        let ghost n0 = self.next_id;
        let total = self.cards.len();
        let mut taken: Vec<Card> = Vec::new();
        std::mem::swap(&mut taken, &mut self.cards);
        let ghost mut answers: Seq<bool> = Seq::empty();
        let mut i: usize = 0;
        assert(start.skip(0) =~= start);
        assert(start.take(0) =~= Seq::<Card>::empty());
        while taken.len() > 0
            invariant
                i <= start.len(),
                start.len() == total,
                self.next_id == n0,
                taken@ == start.skip(i as int),
                answers.len() == i,
                forall|j: int| 0 <= j < i ==> call_ensures(keep, (&start[j],), #[trigger] answers[j]),
                self.cards@ == kept(start.take(i as int), answers),
                forall|c: &Card| call_requires(keep, (c,)),
            decreases taken@.len(),
        {
            let c = taken.remove(0);
            assert(c == start[i as int]);
            let yes = keep(&c);
            let ghost prev = answers;
            proof {
                answers = answers.push(yes);
                assert(start.take(i as int + 1).drop_last() =~= start.take(i as int));
                assert(answers.drop_last() =~= prev);
            }
            if yes {
                self.cards.push(c);
            }
            proof {
                assert(start.take(i as int + 1).last() == start[i as int]);
                assert(answers.last() == yes);
                assert(self.cards@ =~= kept(start.take(i as int + 1), answers));
                assert(taken@ =~= start.skip(i as int + 1));
                assert forall|j: int| 0 <= j < i + 1 implies call_ensures(keep, (&start[j],), #[trigger] answers[j]) by {
                    if j < i {
                        assert(answers[j] == prev[j]);
                    }
                }
            }
            i = i + 1;
        }
        assert(start.skip(i as int).len() == 0);
        assert(i as int == start.len());
        assert(start.take(i as int) =~= start);
        assert(self.cards@ == kept(start, answers));
        assert(self.spec_cards() == kept(start, answers));
        assert(start == old(self).spec_cards());
        assert(answers.len() == old(self).spec_cards().len());
        assert(forall|k: int| 0 <= k < answers.len() ==> call_ensures(keep, (&old(self).spec_cards()[k],), #[trigger] answers[k]));
        proof {
            if distinct_ids(start) && ids_below(start, self.next_id) {
                lemma_kept_wf(start, answers, self.next_id);
            }
        }
    }

    pub fn clear(&mut self)
        ensures
            final(self).spec_cards().len() == 0,
            final(self).spec_next_id() == old(self).spec_next_id(),
            final(self).wf(),
    {
        self.cards.clear();
    }

    /// The cards at `seat` in `zone`, in table order.
    pub fn in_area(&self, seat: PlayerId, zone: Zone) -> (out: Vec<&Card>)
        ensures
            out@.map_values(|c: &Card| *c) == area(self.spec_cards(), seat, zone),
    {
        let mut out: Vec<&Card> = Vec::new();
        let mut i: usize = 0;
        while i < self.cards.len()
            invariant
                i <= self.cards@.len(),
                out@.map_values(|c: &Card| *c) == area(self.cards@.take(i as int), seat, zone),
            decreases self.cards@.len() - i,
        {
            let c = &self.cards[i];
            assert(self.cards@.take(i as int + 1).drop_last() =~= self.cards@.take(i as int));
            if c.seat == seat && c.zone == zone {
                out.push(c);
            }
            i = i + 1;
            assert(out@.map_values(|c: &Card| *c) =~= area(self.cards@.take(i as int), seat, zone));
        }
        assert(self.cards@.take(i as int) =~= self.cards@);
        out
    }

    /// Carries out `intent`; says whether the table changed.
    pub fn apply(&mut self, intent: Intent) -> (r: bool)
        ensures
            r == changes_spec(old(self).spec_cards(), intent),
            final(self).spec_cards() == if r {
                moved(old(self).spec_cards(), intent)
            } else {
                old(self).spec_cards()
            },
            final(self).spec_next_id() == old(self).spec_next_id(),
            old(self).wf() ==> final(self).wf(),
    {
        let ghost before = self.cards@;
        match intent {
            Intent::MoveCard { card, to, seat, index } => {
                if !self.changes(intent) {
                    return false;
                }
                proof {
                    lemma_position(self.cards@, card);
                }
                let from = match self.find_index(card) {
                    Some(from) => from,
                    None => {
                        return false;
                    },
                };
                let mut m = self.cards.remove(from);
                m.zone = to;
                m.seat = seat;
                let at = self.insertion_point(seat, to, index);
                proof {
                    lemma_landing_bounds(self.cards@, seat, to, index as int);
                }
                assert(m == Card { zone: to, seat: seat, ..before[from as int] });
                assert(self.cards@ == before.remove(from as int));
                self.cards.insert(at, m);
                assert(self.cards@ == moved(before, intent));
                proof {
                    if distinct_ids(before) && ids_below(before, self.next_id) {
                        lemma_moved_wf(before, intent, self.next_id);
                    }
                }
                true
            },
        }
    }

    /// Whether `intent` would change the table.
    pub fn changes(&self, intent: Intent) -> (r: bool)
        ensures
            r == changes_spec(self.spec_cards(), intent),
    {
        match intent {
            Intent::MoveCard { card, to, seat, index } => {
                proof {
                    lemma_position(self.cards@, card);
                }
                let from = match self.find_index(card) {
                    Some(from) => from,
                    None => {
                        return false;
                    },
                };
                let m = &self.cards[from];
                if !(m.zone == to) || !(m.seat == seat) {
                    return true;
                }
                self.insertion_point_without(from, seat, to, index) != from
            },
        }
    }

    fn insertion_point(&self, seat: PlayerId, zone: Zone, index: usize) -> (at: usize)
        ensures
            at == landing(self.spec_cards(), seat, zone, index as int),
    {
        let ghost s = self.cards@;
        let mut ordinal: usize = 0;
        let mut i: usize = 0;
        assert(s.skip(0) =~= s);
        while i < self.cards.len()
            invariant
                s == self.cards@,
                i <= s.len(),
                ordinal <= index,
                landing(s, seat, zone, index as int) == i + landing(
                    s.skip(i as int),
                    seat,
                    zone,
                    index - ordinal,
                ),
            decreases s.len() - i,
        {
            let c = &self.cards[i];
            assert(s.skip(i as int)[0] == s[i as int]);
            assert(s.skip(i as int).drop_first() =~= s.skip(i as int + 1));
            if c.seat == seat && c.zone == zone {
                if ordinal == index {
                    return i;
                }
                ordinal = ordinal + 1;
            }
            i = i + 1;
        }
        i
    }

    fn insertion_point_without(&self, without: usize, seat: PlayerId, zone: Zone, index: usize) -> (at: usize)
        requires
            without < self.spec_cards().len(),
        ensures
            at == landing(self.spec_cards().remove(without as int), seat, zone, index as int),
    {
        let ghost s = self.cards@.remove(without as int);
        let mut ordinal: usize = 0;
        let mut i: usize = 0;
        assert(s.skip(0) =~= s);
        while i < self.cards.len()
            invariant
                s == self.cards@.remove(without as int),
                without < self.cards@.len(),
                i <= self.cards@.len(),
                ordinal <= index,
                i <= without ==> landing(s, seat, zone, index as int) == i + landing(
                    s.skip(i as int),
                    seat,
                    zone,
                    index - ordinal,
                ),
                i > without ==> landing(s, seat, zone, index as int) == (i - 1) + landing(
                    s.skip(i - 1),
                    seat,
                    zone,
                    index - ordinal,
                ),
            decreases self.cards@.len() - i,
        {
            if i == without {
                i = i + 1;
                continue;
            }
            let c = &self.cards[i];
            let k: usize = if i > without {
                i - 1
            } else {
                i
            };
            assert(s[k as int] == self.cards@[i as int]);
            assert(s.skip(k as int)[0] == s[k as int]);
            assert(s.skip(k as int).drop_first() =~= s.skip(k as int + 1));
            if c.seat == seat && c.zone == zone {
                if ordinal == index {
                    return k;
                }
                ordinal = ordinal + 1;
            }
            i = i + 1;
        }
        assert(s.skip(s.len() as int) =~= Seq::<Card>::empty());
        self.cards.len() - 1
    }
}

/// The cards the answers keep, in order.
pub open spec fn kept(s: Seq<Card>, answers: Seq<bool>) -> Seq<Card>
    decreases s.len(),
{
    if s.len() == 0 {
        Seq::empty()
    } else if answers.last() {
        kept(s.drop_last(), answers.drop_last()).push(s.last())
    } else {
        kept(s.drop_last(), answers.drop_last())
    }
}

proof fn lemma_kept_members(s: Seq<Card>, answers: Seq<bool>)
    requires
        answers.len() == s.len(),
    ensures
        forall|x: int| 0 <= x < kept(s, answers).len() ==> exists|j: int| 0 <= j < s.len() && #[trigger] kept(s, answers)[x] == s[j],
    decreases s.len(),
{
    if s.len() > 0 {
        lemma_kept_members(s.drop_last(), answers.drop_last());
        let k = kept(s.drop_last(), answers.drop_last());
        assert forall|x: int| 0 <= x < kept(s, answers).len() implies exists|j: int| 0 <= j < s.len() && #[trigger] kept(s, answers)[x] == s[j] by {
            if x < k.len() {
                let j = choose|j: int| 0 <= j < s.drop_last().len() && k[x] == s.drop_last()[j];
                assert(kept(s, answers)[x] == k[x]);
                assert(s[j] == s.drop_last()[j]);
            } else {
                assert(kept(s, answers)[x] == s[s.len() - 1]);
            }
        }
    }
}

/// Keeping some of the cards keeps their ids distinct and below the same
/// bound.
pub proof fn lemma_kept_wf(s: Seq<Card>, answers: Seq<bool>, n: u32)
    requires
        answers.len() == s.len(),
        distinct_ids(s),
        ids_below(s, n),
    ensures
        distinct_ids(kept(s, answers)),
        ids_below(kept(s, answers), n),
    decreases s.len(),
{
    if s.len() > 0 {
        let t = s.drop_last();
        assert forall|i: int, j: int| 0 <= i < j < t.len() implies t[i].id != t[j].id by {
            assert(t[i] == s[i]);
            assert(t[j] == s[j]);
        }
        assert forall|i: int| 0 <= i < t.len() implies (#[trigger] t[i]).id.0 < n by {
            assert(t[i] == s[i]);
        }
        lemma_kept_wf(t, answers.drop_last(), n);
        lemma_kept_members(t, answers.drop_last());
        let k = kept(t, answers.drop_last());
        if answers.last() {
            let m = kept(s, answers);
            assert(m == k.push(s.last()));
            assert forall|i: int, j: int| 0 <= i < j < m.len() implies m[i].id != m[j].id by {
                if j == m.len() - 1 {
                    assert(m[i] == k[i]);
                    let x = choose|x: int| 0 <= x < t.len() && #[trigger] k[i] == t[x];
                    assert(t[x] == s[x]);
                    assert(m[j] == s[s.len() - 1]);
                } else {
                    assert(m[i] == k[i]);
                    assert(m[j] == k[j]);
                }
            }
            assert forall|i: int| 0 <= i < m.len() implies (#[trigger] m[i]).id.0 < n by {
                if i < k.len() {
                    assert(m[i] == k[i]);
                } else {
                    assert(m[i] == s[s.len() - 1]);
                }
            }
        }
    }
}

/// No two cards share an id.
pub open spec fn distinct_ids(s: Seq<Card>) -> bool {
    forall|i: int, j: int| 0 <= i < j < s.len() ==> s[i].id != s[j].id
}

/// Every id is below `n`.
pub open spec fn ids_below(s: Seq<Card>, n: u32) -> bool {
    forall|i: int| 0 <= i < s.len() ==> (#[trigger] s[i]).id.0 < n
}

/// A move keeps the cards' ids distinct and below the same bound.
pub proof fn lemma_moved_wf(s: Seq<Card>, intent: Intent, n: u32)
    requires
        distinct_ids(s),
        ids_below(s, n),
    ensures
        distinct_ids(moved(s, intent)),
        ids_below(moved(s, intent), n),
        moved(s, intent).len() == s.len(),
{
    match intent {
        Intent::MoveCard { card, to, seat, index } => {
            lemma_position(s, card);
            if let Some(from) = position(s, card) {
                let rest = s.remove(from);
                let c = Card { zone: to, seat: seat, ..s[from] };
                lemma_landing_bounds(rest, seat, to, index as int);
                let at = landing(rest, seat, to, index as int);
                let m = rest.insert(at, c);
                assert forall|i: int| 0 <= i < rest.len() implies rest[i].id != c.id
                    && (#[trigger] rest[i]).id.0 < n by {
                    if i < from {
                        assert(rest[i] == s[i]);
                    } else {
                        assert(rest[i] == s[i + 1]);
                    }
                }
                assert forall|i: int, j: int| 0 <= i < j < rest.len() implies rest[i].id
                    != rest[j].id by {
                    let a = if i < from { i } else { i + 1 };
                    let b = if j < from { j } else { j + 1 };
                    assert(rest[i] == s[a]);
                    assert(rest[j] == s[b]);
                }
                assert forall|i: int, j: int| 0 <= i < j < m.len() implies m[i].id
                    != m[j].id by {
                    let a = if i < at { i } else if i == at { -1 } else { i - 1 };
                    let b = if j < at { j } else if j == at { -1 } else { j - 1 };
                    if a >= 0 { assert(m[i] == rest[a]); }
                    if b >= 0 { assert(m[j] == rest[b]); }
                }
                assert forall|i: int| 0 <= i < m.len() implies (#[trigger] m[i]).id.0 < n by {
                    if i < at { assert(m[i] == rest[i]); }
                    else if i > at { assert(m[i] == rest[i - 1]); }
                }
            }
        },
    }
}

} // verus!
