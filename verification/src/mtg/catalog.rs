//! The Magic card catalog: lookup by name, and a lookup layered over
//! another.
use vstd::prelude::*;
use crate::deck::catalog::{name_gave, prefix_hit, CardLookup as Lookup, LookupError, NameIndex};
use crate::mtg::Mtg;
use crate::naming::normalized;
use crate::riftbound::resolved::{copy_opt_text, opt_text};

verus! {

/// A card record of the catalog: its name and its art, if any.
#[derive(Debug, PartialEq, Eq)]
pub struct MtgCard {
    pub name: String,
    pub image_url: Option<String>,
}

/// A catalog record as plain values.
pub open spec fn mtg_card_view(c: MtgCard) -> (Seq<char>, Option<Seq<char>>) {
    (c.name@, opt_text(c.image_url))
}

impl MtgCard {
    /// A copy of the record.
    pub fn duplicate(&self) -> (r: MtgCard)
        ensures
            mtg_card_view(r) == mtg_card_view(*self),
    {
        MtgCard { name: self.name.clone(), image_url: copy_opt_text(&self.image_url) }
    }
}

impl Clone for MtgCard {
    /// A copy of the record, equal in every field.
    fn clone(&self) -> (r: Self)
        ensures
            mtg_card_view(r) == mtg_card_view(*self),
    {
        self.duplicate()
    }
}

/// Magic lookups by name.
pub trait CardLookup: Lookup<Mtg> {
    /// Looks a card up by its name.
    fn by_name(&mut self, name: &str) -> (r: Result<Option<MtgCard>, LookupError>)
        ensures
            exists|s: String| s@ == name@ && #[trigger] old(self).answers(s, r, *final(self)),
    {
        let s = name.to_owned();
        self.find(&s)
    }
}

impl<L: Lookup<Mtg>> CardLookup for L {}

pub type Cached<L> = crate::deck::catalog::Cached<Mtg, L>;

/// The name a catalog card is found by.
fn mtg_card_name(card: &MtgCard) -> (r: &str)
    ensures
        r@ == card.name@,
{
    card.name.as_str()
}

/// The first card from position `i` on whose normalized name is `key`.
pub open spec fn first_carrying(cards: Seq<MtgCard>, key: Seq<char>, i: int) -> Option<int>
    decreases cards.len() - i,
{
    if i < 0 || i >= cards.len() {
        None
    } else if normalized(cards[i].name@) == key {
        Some(i)
    } else {
        first_carrying(cards, key, i + 1)
    }
}

proof fn lemma_first_carrying(cards: Seq<MtgCard>, key: Seq<char>, i: int)
    requires
        0 <= i,
        first_carrying(cards, key, i) is Some,
    ensures
        i <= first_carrying(cards, key, i)->Some_0 < cards.len(),
        normalized(cards[first_carrying(cards, key, i)->Some_0].name@) == key,
        forall|j: int| i <= j < first_carrying(cards, key, i)->Some_0 ==> normalized(#[trigger] cards[j].name@) != key,
    decreases cards.len() - i,
{
    if normalized(cards[i].name@) != key {
        lemma_first_carrying(cards, key, i + 1);
    }
}

/// A fixed catalog, found by name.
pub struct StaticCatalog {
    index: NameIndex<MtgCard>,
}

impl StaticCatalog {
    #[verifier::type_invariant]
    spec fn inv(&self) -> bool {
        &&& self.index.wf()
        &&& self.index.names() == self.index.card_seq().map_values(|c: MtgCard| c.name@)
    }

    pub closed spec fn cards(&self) -> Seq<MtgCard> {
        self.index.card_seq()
    }

    pub closed spec fn names(&self) -> Seq<(String, usize)> {
        self.index.keys()
    }

    /// The card a name finds, as its position among the cards: the card
    /// whose normalized name it is, else the one card whose normalized name
    /// it begins at a word boundary.
    pub open spec fn hit(&self, name: Seq<char>) -> Option<int> {
        match prefix_hit(self.names(), normalized(name), ' ') {
            Some(i) => Some(self.names()[i].1 as int),
            None => None,
        }
    }

    /// Indexes the cards by normalized name; of cards sharing one, the
    /// first is found.
    pub fn new(cards: Vec<MtgCard>) -> (r: Self)
        ensures
            r.cards() == cards@,
    {
        let index = NameIndex::new(cards, mtg_card_name);
        assert(index.names() =~= index.card_seq().map_values(|c: MtgCard| c.name@)) by {
            assert forall|x: int| 0 <= x < index.names().len() implies index.names()[x] == index.card_seq()[x].name@ by {
                assert(name_gave(mtg_card_name, index.card_seq()[x], index.names()[x]));
            }
        }
        StaticCatalog { index }
    }

    pub fn len(&self) -> (r: usize)
        ensures
            r == self.cards().len(),
    {
        self.index.len()
    }

    pub fn is_empty(&self) -> (r: bool)
        ensures
            r == (self.cards().len() == 0),
    {
        self.index.is_empty()
    }
}

impl Lookup<Mtg> for StaticCatalog {
    /// The catalog is left as it was and answers the card the name hits,
    /// or nothing.
    open spec fn answers(&self, name: String, r: Result<Option<MtgCard>, LookupError>, after: Self) -> bool {
        &&& after == *self
        &&& match self.hit(name@) {
            Some(k) => r matches Ok(Some(c)) && mtg_card_view(c) == mtg_card_view(self.cards()[k]),
            None => r == Ok::<Option<MtgCard>, LookupError>(None),
        }
    }

    /// Names by normalized name or unique word prefix.
    fn find(&mut self, name: &String) -> (r: Result<Option<MtgCard>, LookupError>)
        ensures
            *final(self) == *old(self),
            match old(self).hit(name@) {
                Some(k) => r matches Ok(Some(c)) && mtg_card_view(c) == mtg_card_view(old(self).cards()[k]),
                None => r == Ok::<Option<MtgCard>, LookupError>(None),
            },
            match first_carrying(old(self).cards(), normalized(name@), 0) {
                Some(i) => r matches Ok(Some(c)) && mtg_card_view(c) == mtg_card_view(old(self).cards()[i]),
                None => true,
            },
    {
        proof {
            use_type_invariant(&*self);
            let key = normalized(name@);
            if first_carrying(self.cards(), key, 0) is Some {
                lemma_first_carrying(self.cards(), key, 0);
                let i = first_carrying(self.cards(), key, 0)->Some_0;
                assert(self.index.names()[i] == self.cards()[i].name@);
                assert forall|j: int| 0 <= j < i implies normalized(#[trigger] self.index.names()[j]) != key by {
                    assert(self.index.names()[j] == self.cards()[j].name@);
                }
                self.index.lemma_name_reaches_first(key, i);
            }
        }
        Ok(match self.index.find(name.as_str()) {
            Some(card) => Some(card.duplicate()),
            None => None,
        })
    }
}

/// A lookup that asks `first`, and asks `second` when `first` fails, finds
/// nothing, or finds a card without art (which still answers when `second`
/// finds nothing).
pub struct Layered<First, Second> {
    pub first: First,
    pub second: Second,
}

/// Whether `first`'s answer settles a layered lookup: a card with art.
pub open spec fn settles(first: Result<Option<MtgCard>, LookupError>) -> bool {
    match first {
        Ok(Some(card)) => card.image_url is Some,
        _ => false,
    }
}

/// What a layered lookup answers, given what `first` answered and, when it
/// was asked, what `second` answered.
pub open spec fn layered_answer(
    first: Result<Option<MtgCard>, LookupError>,
    second: Result<Option<MtgCard>, LookupError>,
) -> Result<Option<MtgCard>, LookupError> {
    match first {
        Ok(Some(card)) => match second {
            Ok(Some(remote)) => Ok(Some(remote)),
            Ok(None) => Ok(Some(card)),
            Err(e) => Err(e),
        },
        _ => second,
    }
}

fn layered(
    first: Result<Option<MtgCard>, LookupError>,
    second: Result<Option<MtgCard>, LookupError>,
) -> (r: Result<Option<MtgCard>, LookupError>)
    ensures
        r == layered_answer(first, second),
{
    match first {
        Ok(Some(card)) => match second {
            Ok(Some(remote)) => Ok(Some(remote)),
            Ok(None) => Ok(Some(card)),
            Err(e) => Err(e),
        },
        _ => second,
    }
}

impl<First: Lookup<Mtg>, Second: Lookup<Mtg>> Lookup<Mtg> for Layered<First, Second> {
    /// `first` is asked; a card with art is the answer and `second` is left
    /// alone; else `second` is asked too and the answers combine as
    /// `layered_answer` says.
    open spec fn answers(&self, name: String, r: Result<Option<MtgCard>, LookupError>, after: Self) -> bool {
        exists|r1: Result<Option<MtgCard>, LookupError>| {
            &&& #[trigger] self.first.answers(name, r1, after.first)
            &&& if settles(r1) {
                r == r1 && after.second == self.second
            } else {
                exists|r2: Result<Option<MtgCard>, LookupError>| #[trigger] self.second.answers(name, r2, after.second)
                    && r == layered_answer(r1, r2)
            }
        }
    }

    fn find(&mut self, name: &String) -> (r: Result<Option<MtgCard>, LookupError>) {
        let ghost start = *self;
        let r1 = self.first.find(name);
        let ghost mid = *self;
        assert(start.first.answers(*name, r1, mid.first));
        let settled = match &r1 {
            Ok(Some(card)) => card.image_url.is_some(),
            _ => false,
        };
        assert(settled == settles(r1));
        if settled {
            return r1;
        }
        let r2 = self.second.find(name);
        assert(mid.second.answers(*name, r2, self.second));
        assert(self.first == mid.first);
        layered(r1, r2)
    }
}

} // verus!
