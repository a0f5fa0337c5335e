//! The Riftbound card catalog: card records, lookup by name, code and id,
//! and a lookup layered over another.
use vstd::prelude::*;
use crate::deck::catalog::{name_gave, prefix_hit, unique_prefix, CardLookup as Lookup, LookupError, NameIndex};
use crate::naming::normalized;
use crate::riftbound::card_code::{id_fragment_text, CardCode};
use crate::riftbound::resolved::{copy_opt_text, copy_texts, opt_text, texts, ResolvedCard};
use crate::riftbound::{Identifier, Riftbound};
use crate::text::{chars_of, is, lower_all, lower_seq, string_of};

verus! {

/// What kind of card a record is.
#[derive(Debug, Clone, Copy, PartialEq, Eq, PartialOrd, Ord, Hash, Default, Structural)]
pub enum CardKind {
    Legend,
    Unit,
    Spell,
    Gear,
    Rune,
    Battlefield,
    #[default]
    Other,
}

/// The kind a (case-insensitive) kind name names.
pub open spec fn kind_of(text: Seq<char>) -> CardKind {
    let t = lower_seq(text);
    if t == "legend"@ {
        CardKind::Legend
    } else if t == "unit"@ {
        CardKind::Unit
    } else if t == "spell"@ {
        CardKind::Spell
    } else if t == "gear"@ {
        CardKind::Gear
    } else if t == "rune"@ {
        CardKind::Rune
    } else if t == "battlefield"@ {
        CardKind::Battlefield
    } else {
        CardKind::Other
    }
}

pub open spec fn kind_name(k: CardKind) -> Seq<char> {
    match k {
        CardKind::Legend => "Legend"@,
        CardKind::Unit => "Unit"@,
        CardKind::Spell => "Spell"@,
        CardKind::Gear => "Gear"@,
        CardKind::Rune => "Rune"@,
        CardKind::Battlefield => "Battlefield"@,
        CardKind::Other => "Other"@,
    }
}

/// The kind names cards are typed with, lower-cased, each with its kind.
pub open spec fn published_kinds() -> Seq<(Seq<char>, CardKind)> {
    seq![
        ("legend"@, CardKind::Legend),
        ("unit"@, CardKind::Unit),
        ("spell"@, CardKind::Spell),
        ("gear"@, CardKind::Gear),
        ("rune"@, CardKind::Rune),
        ("battlefield"@, CardKind::Battlefield),
    ]
}

/// A kind name, in any case, reads as the kind of that name, and the kind
/// is written back under that name; any other name reads as `Other`.
pub proof fn lemma_kind_names_are_published()
    ensures
        forall|i: int| 0 <= i < published_kinds().len() ==> #[trigger] kind_of(published_kinds()[i].0) == published_kinds()[i].1
            && lower_seq(kind_name(published_kinds()[i].1)) == published_kinds()[i].0,
        forall|t: Seq<char>| (forall|i: int| 0 <= i < published_kinds().len() ==> published_kinds()[i].0 != lower_seq(t)) ==> #[trigger] kind_of(t) == CardKind::Other,
{
    reveal_strlit("legend");
    assert("legend"@.len() == 6 && "legend"@[0] == 'l' && "legend"@[1] == 'e' && "legend"@[2] == 'g' && "legend"@[3] == 'e' && "legend"@[4] == 'n' && "legend"@[5] == 'd');
    reveal_strlit("Legend");
    assert("Legend"@.len() == 6 && "Legend"@[0] == 'L' && "Legend"@[1] == 'e' && "Legend"@[2] == 'g' && "Legend"@[3] == 'e' && "Legend"@[4] == 'n' && "Legend"@[5] == 'd');
    reveal_strlit("unit");
    assert("unit"@.len() == 4 && "unit"@[0] == 'u' && "unit"@[1] == 'n' && "unit"@[2] == 'i' && "unit"@[3] == 't');
    reveal_strlit("Unit");
    assert("Unit"@.len() == 4 && "Unit"@[0] == 'U' && "Unit"@[1] == 'n' && "Unit"@[2] == 'i' && "Unit"@[3] == 't');
    reveal_strlit("spell");
    assert("spell"@.len() == 5 && "spell"@[0] == 's' && "spell"@[1] == 'p' && "spell"@[2] == 'e' && "spell"@[3] == 'l' && "spell"@[4] == 'l');
    reveal_strlit("Spell");
    assert("Spell"@.len() == 5 && "Spell"@[0] == 'S' && "Spell"@[1] == 'p' && "Spell"@[2] == 'e' && "Spell"@[3] == 'l' && "Spell"@[4] == 'l');
    reveal_strlit("gear");
    assert("gear"@.len() == 4 && "gear"@[0] == 'g' && "gear"@[1] == 'e' && "gear"@[2] == 'a' && "gear"@[3] == 'r');
    reveal_strlit("Gear");
    assert("Gear"@.len() == 4 && "Gear"@[0] == 'G' && "Gear"@[1] == 'e' && "Gear"@[2] == 'a' && "Gear"@[3] == 'r');
    reveal_strlit("rune");
    assert("rune"@.len() == 4 && "rune"@[0] == 'r' && "rune"@[1] == 'u' && "rune"@[2] == 'n' && "rune"@[3] == 'e');
    reveal_strlit("Rune");
    assert("Rune"@.len() == 4 && "Rune"@[0] == 'R' && "Rune"@[1] == 'u' && "Rune"@[2] == 'n' && "Rune"@[3] == 'e');
    reveal_strlit("battlefield");
    assert("battlefield"@.len() == 11 && "battlefield"@[0] == 'b' && "battlefield"@[1] == 'a' && "battlefield"@[2] == 't' && "battlefield"@[3] == 't' && "battlefield"@[4] == 'l' && "battlefield"@[5] == 'e' && "battlefield"@[6] == 'f' && "battlefield"@[7] == 'i' && "battlefield"@[8] == 'e' && "battlefield"@[9] == 'l' && "battlefield"@[10] == 'd');
    reveal_strlit("Battlefield");
    assert("Battlefield"@.len() == 11 && "Battlefield"@[0] == 'B' && "Battlefield"@[1] == 'a' && "Battlefield"@[2] == 't' && "Battlefield"@[3] == 't' && "Battlefield"@[4] == 'l' && "Battlefield"@[5] == 'e' && "Battlefield"@[6] == 'f' && "Battlefield"@[7] == 'i' && "Battlefield"@[8] == 'e' && "Battlefield"@[9] == 'l' && "Battlefield"@[10] == 'd');
    let t = published_kinds();
    assert(lower_seq("legend"@) =~= "legend"@);
    assert(lower_seq("Legend"@) =~= "legend"@);
    assert(kind_of(t[0].0) == t[0].1);
    assert(lower_seq("unit"@) =~= "unit"@);
    assert(lower_seq("Unit"@) =~= "unit"@);
    assert(kind_of(t[1].0) == t[1].1);
    assert(lower_seq("spell"@) =~= "spell"@);
    assert(lower_seq("Spell"@) =~= "spell"@);
    assert(kind_of(t[2].0) == t[2].1);
    assert(lower_seq("gear"@) =~= "gear"@);
    assert(lower_seq("Gear"@) =~= "gear"@);
    assert(kind_of(t[3].0) == t[3].1);
    assert(lower_seq("rune"@) =~= "rune"@);
    assert(lower_seq("Rune"@) =~= "rune"@);
    assert(kind_of(t[4].0) == t[4].1);
    assert(lower_seq("battlefield"@) =~= "battlefield"@);
    assert(lower_seq("Battlefield"@) =~= "battlefield"@);
    assert(kind_of(t[5].0) == t[5].1);
    assert forall|i: int| 0 <= i < t.len() implies #[trigger] kind_of(t[i].0) == t[i].1 && lower_seq(kind_name(t[i].1)) == t[i].0 by {}
    assert forall|x: Seq<char>| (forall|i: int| 0 <= i < t.len() ==> t[i].0 != lower_seq(x)) implies #[trigger] kind_of(x) == CardKind::Other by {
        assert(t[0].0 != lower_seq(x) && t[1].0 != lower_seq(x) && t[2].0 != lower_seq(x) && t[3].0 != lower_seq(x) && t[4].0 != lower_seq(x) && t[5].0 != lower_seq(x));
    }
}

impl CardKind {
    /// Reads a kind name, any case; anything unknown is `Other`.
    pub fn parse(text: &str) -> (r: Self)
        ensures
            r == kind_of(text@),
    {
        let t = lower_all(chars_of(text).as_slice());
        let t = t.as_slice();
        if is(t, "legend") {
            CardKind::Legend
        } else if is(t, "unit") {
            CardKind::Unit
        } else if is(t, "spell") {
            CardKind::Spell
        } else if is(t, "gear") {
            CardKind::Gear
        } else if is(t, "rune") {
            CardKind::Rune
        } else if is(t, "battlefield") {
            CardKind::Battlefield
        } else {
            CardKind::Other
        }
    }

    pub fn as_str(self) -> (r: &'static str)
        ensures
            r@ == kind_name(self),
    {
        match self {
            CardKind::Legend => "Legend",
            CardKind::Unit => "Unit",
            CardKind::Spell => "Spell",
            CardKind::Gear => "Gear",
            CardKind::Rune => "Rune",
            CardKind::Battlefield => "Battlefield",
            CardKind::Other => "Other",
        }
    }
}

pub const SUPERTYPE_CHAMPION: &'static str = "Champion";
pub const SUPERTYPE_SIGNATURE: &'static str = "Signature";

/// A card record of the catalog.
#[derive(Debug, PartialEq, Eq, Default)]
pub struct CatalogCard {
    pub name: String,
    pub riftbound_id: String,
    pub kind: CardKind,
    pub champion: bool,
    pub image_url: Option<String>,
    pub energy: Option<u8>,
    pub power: Option<u8>,
    pub might: Option<u8>,
    pub domain: Vec<String>,
    pub tags: Vec<String>,
    pub signature: bool,
    pub set_id: Option<String>,
    pub text: Option<String>,
}

/// The resolved card a catalog record gives.
pub open spec fn resolved_view(c: CatalogCard) -> crate::riftbound::resolved::CardView {
    (
        c.name@,
        c.riftbound_id@,
        opt_text(c.image_url),
        Some(kind_name(c.kind)),
        c.energy,
        c.power,
        c.might,
        texts(c.domain@),
        texts(c.tags@),
        c.signature,
    )
}

impl CatalogCard {
    /// A record that only fills a gap: no kind, no text, no domain.
    pub fn is_padded(&self) -> (r: bool)
        ensures
            r == (self.kind == CardKind::Other && self.text is None && self.domain@.len() == 0),
    {
        self.kind == CardKind::Other && self.text.is_none() && self.domain.len() == 0
    }

    /// The card as a resolved deck holds it.
    pub fn resolved(&self) -> (r: ResolvedCard)
        ensures
            r@ == resolved_view(*self),
    {
        ResolvedCard {
            name: self.name.clone(),
            riftbound_id: self.riftbound_id.clone(),
            image_url: copy_opt_text(&self.image_url),
            kind: Some(self.kind.as_str().to_owned()),
            energy: self.energy,
            power: self.power,
            might: self.might,
            domain: copy_texts(&self.domain),
            tags: copy_texts(&self.tags),
            signature: self.signature,
        }
    }
}

/// Riftbound lookups by name, printed code and catalog id.
pub trait CardLookup: Lookup<Riftbound> {
    /// Looks a card up by its name.
    fn by_name(&mut self, name: &str) -> (r: Result<Option<CatalogCard>, LookupError>)
        ensures
            exists|s: String| s@ == name@ && #[trigger] old(self).answers(Identifier::Name(s), r, *final(self)),
    {
        let s = name.to_owned();
        let id = Identifier::Name(s);
        self.find(&id)
    }

    /// Looks a card up by its printed code.
    fn by_code(&mut self, code: &CardCode) -> (r: Result<Option<CatalogCard>, LookupError>)
        ensures
            old(self).answers(Identifier::Code(*code), r, *final(self)),
    {
        self.find(&Identifier::Code(*code))
    }

    /// Looks a card up by its catalog id.
    fn by_id(&mut self, id: &str) -> (r: Result<Option<CatalogCard>, LookupError>)
        ensures
            exists|s: String| s@ == id@ && #[trigger] old(self).answers(Identifier::Id(s), r, *final(self)),
    {
        let s = id.to_owned();
        let identifier = Identifier::Id(s);
        self.find(&identifier)
    }
}

impl<L: Lookup<Riftbound>> CardLookup for L {}

pub type Cached<L> = crate::deck::catalog::Cached<Riftbound, L>;

/// A catalog record as plain values, every field of it: the card as a
/// resolved deck holds it, its kind, whether it is a champion, its set and
/// its rules text.
pub open spec fn card_view(c: CatalogCard) -> (
    crate::riftbound::resolved::CardView,
    CardKind,
    bool,
    Option<Seq<char>>,
    Option<Seq<char>>,
) {
    (resolved_view(c), c.kind, c.champion, opt_text(c.set_id), opt_text(c.text))
}

impl CatalogCard {
    /// A copy of the record, equal in every field.
    pub fn duplicate(&self) -> (r: CatalogCard)
        ensures
            card_view(r) == card_view(*self),
    {
        CatalogCard {
            name: self.name.clone(),
            riftbound_id: self.riftbound_id.clone(),
            kind: self.kind,
            champion: self.champion,
            image_url: copy_opt_text(&self.image_url),
            energy: self.energy,
            power: self.power,
            might: self.might,
            domain: copy_texts(&self.domain),
            tags: copy_texts(&self.tags),
            signature: self.signature,
            set_id: copy_opt_text(&self.set_id),
            text: copy_opt_text(&self.text),
        }
    }
}

impl Clone for CatalogCard {
    /// A copy of the record, equal in every field.
    fn clone(&self) -> (r: Self)
        ensures
            card_view(r) == card_view(*self),
    {
        self.duplicate()
    }
}

/// The first card from position `i` on whose normalized name is `key`.
pub open spec fn first_carrying(cards: Seq<CatalogCard>, key: Seq<char>, i: int) -> Option<int>
    decreases cards.len() - i,
{
    if i < 0 || i >= cards.len() {
        None
    } else if normalized(cards[i].name@) == key {
        Some(i)
    } else {
        first_carrying(cards, key, i + 1)
    }
}

proof fn lemma_first_carrying(cards: Seq<CatalogCard>, key: Seq<char>, i: int)
    requires
        0 <= i,
        first_carrying(cards, key, i) is Some,
    ensures
        i <= first_carrying(cards, key, i)->Some_0 < cards.len(),
        normalized(cards[first_carrying(cards, key, i)->Some_0].name@) == key,
        forall|j: int| i <= j < first_carrying(cards, key, i)->Some_0 ==> normalized(#[trigger] cards[j].name@) != key,
    decreases cards.len() - i,
{
    if normalized(cards[i].name@) != key {
        lemma_first_carrying(cards, key, i + 1);
    }
}

/// The name a catalog card is found by.
fn card_name(card: &CatalogCard) -> (r: &str)
    ensures
        r@ == card.name@,
{
    card.name.as_str()
}

/// A fixed catalog, found by name and by (lower-case) catalog id.
pub struct StaticCatalog {
    index: NameIndex<CatalogCard>,
    by_id: Vec<(String, usize)>,
}

/// Whether no two keys are the same.
pub open spec fn distinct_keys(keys: Seq<(String, usize)>) -> bool {
    forall|i: int, j: int| 0 <= i < j < keys.len() ==> (#[trigger] keys[i]).0@ != (#[trigger] keys[j]).0@
}

impl StaticCatalog {
    #[verifier::type_invariant]
    spec fn inv(&self) -> bool {
        &&& self.index.wf()
        &&& self.index.names() == self.index.card_seq().map_values(|c: CatalogCard| c.name@)
        &&& distinct_keys(self.by_id@)
        &&& forall|i: int| 0 <= i < self.by_id@.len() ==> (#[trigger] self.by_id@[i]).1 < self.index.card_seq().len()
    }

    pub closed spec fn cards(&self) -> Seq<CatalogCard> {
        self.index.card_seq()
    }

    pub closed spec fn ids(&self) -> Seq<(String, usize)> {
        self.by_id@
    }

    pub closed spec fn names(&self) -> Seq<(String, usize)> {
        self.index.keys()
    }

    /// The card an identifier finds, as its position among the cards.
    pub open spec fn hit(&self, identifier: Identifier) -> Option<int> {
        match identifier {
            Identifier::Name(n) => match prefix_hit(self.names(), normalized(n@), ' ') {
                Some(i) => Some(self.names()[i].1 as int),
                None => None,
            },
            Identifier::Code(c) => match prefix_hit(self.ids(), id_fragment_text(c), '-') {
                Some(i) => Some(self.ids()[i].1 as int),
                None => None,
            },
            Identifier::Id(id) => match prefix_hit(self.ids(), lower_seq(id@), '-') {
                Some(i) => Some(self.ids()[i].1 as int),
                None => None,
            },
        }
    }

    /// Indexes the cards by name and by lower-case id; of two cards with
    /// one id, the later is found.
    pub fn new(cards: Vec<CatalogCard>) -> (r: Self)
        ensures
            r.cards() == cards@,
    {
        let ghost given = cards@;
        let mut by_id: Vec<(String, usize)> = Vec::new();
        let mut i: usize = 0;
        while i < cards.len()
            invariant
                i <= cards@.len(),
                distinct_keys(by_id@),
                forall|x: int| 0 <= x < by_id@.len() ==> (#[trigger] by_id@[x]).1 < i,
            decreases cards@.len() - i,
        {
            let key = lower_all(chars_of(cards[i].riftbound_id.as_str()).as_slice());
            let key_text = string_of(key.as_slice());
            let mut k: usize = 0;
            let mut found = false;
            while k < by_id.len()
                invariant
                    k <= by_id@.len(),
                    distinct_keys(by_id@),
                    forall|x: int| 0 <= x < by_id@.len() ==> (#[trigger] by_id@[x]).1 <= i,
                    !found ==> forall|x: int| 0 <= x < k ==> (#[trigger] by_id@[x]).0@ != key@,
                decreases by_id@.len() - k,
            {
                if crate::text::same(chars_of(by_id[k].0.as_str()).as_slice(), key.as_slice()) {
                    let kept = by_id[k].0.clone();
                    let ghost before = by_id@;
                    by_id.set(k, (kept, i));
                    found = true;
                    assert forall|a: int, b: int| 0 <= a < b < by_id@.len() implies (#[trigger] by_id@[a]).0@ != (#[trigger] by_id@[b]).0@ by {
                        assert(by_id@[a].0 == before[a].0 && by_id@[b].0 == before[b].0);
                    }
                }
                k = k + 1;
            }
            if !found {
                let ghost before = by_id@;
                by_id.push((key_text, i));
                assert forall|a: int, b: int| 0 <= a < b < by_id@.len() implies (#[trigger] by_id@[a]).0@ != (#[trigger] by_id@[b]).0@ by {
                    if b == before.len() {
                        assert(by_id@[b].0@ == key@);
                        assert(by_id@[a] == before[a]);
                    } else {
                        assert(by_id@[a] == before[a] && by_id@[b] == before[b]);
                    }
                }
            }
            i = i + 1;
        }
        let index = NameIndex::new(cards, card_name);
        assert(index.names() =~= index.card_seq().map_values(|c: CatalogCard| c.name@)) by {
            assert forall|x: int| 0 <= x < index.names().len() implies index.names()[x] == index.card_seq()[x].name@ by {
                assert(name_gave(card_name, index.card_seq()[x], index.names()[x]));
            }
        }
        StaticCatalog { index, by_id }
    }

    pub fn len(&self) -> (r: usize)
        ensures
            r == self.cards().len(),
    {
        self.index.len()
    }

    pub fn is_empty(&self) -> (r: bool)
        ensures
            r == (self.cards().len() == 0),
    {
        self.index.is_empty()
    }

    fn find_id_fragment(&self, fragment: &str) -> (r: Option<CatalogCard>)
        ensures
            match prefix_hit(self.ids(), fragment@, '-') {
                Some(i) => r matches Some(c) && card_view(c) == card_view(self.cards()[self.ids()[i].1 as int]),
                None => r is None,
            },
    {
        proof {
            use_type_invariant(self);
        }
        match unique_prefix(self.by_id.as_slice(), fragment, '-') {
            Some(index) => {
                let index = *index;
                Some(self.index.cards()[index].duplicate())
            },
            None => None,
        }
    }
}

impl Lookup<Riftbound> for StaticCatalog {
    /// The catalog is left as it was and answers the card the identifier
    /// hits, or nothing.
    open spec fn answers(&self, identifier: Identifier, r: Result<Option<CatalogCard>, LookupError>, after: Self) -> bool {
        &&& after == *self
        &&& match self.hit(identifier) {
            Some(k) => r matches Ok(Some(c)) && card_view(c) == card_view(self.cards()[k]),
            None => r == Ok::<Option<CatalogCard>, LookupError>(None),
        }
    }

    /// Names by normalized name or unique word prefix; codes and ids by
    /// their lower-case id fragment, exactly or as the unique id it begins.
    fn find(&mut self, identifier: &Identifier) -> (r: Result<Option<CatalogCard>, LookupError>)
        ensures
            *final(self) == *old(self),
            match old(self).hit(*identifier) {
                Some(k) => r matches Ok(Some(c)) && card_view(c) == card_view(old(self).cards()[k]),
                None => r == Ok::<Option<CatalogCard>, LookupError>(None),
            },
            match *identifier {
                Identifier::Name(n) => match first_carrying(old(self).cards(), normalized(n@), 0) {
                    Some(i) => r matches Ok(Some(c)) && card_view(c) == card_view(old(self).cards()[i]),
                    None => true,
                },
                _ => true,
            },
    {
        proof {
            use_type_invariant(&*self);
            match identifier {
                Identifier::Name(n) => {
                    let key = normalized(n@);
                    if first_carrying(self.cards(), key, 0) is Some {
                        lemma_first_carrying(self.cards(), key, 0);
                        let i = first_carrying(self.cards(), key, 0)->Some_0;
                        assert(self.index.names()[i] == self.cards()[i].name@);
                        assert forall|j: int| 0 <= j < i implies normalized(#[trigger] self.index.names()[j]) != key by {
                            assert(self.index.names()[j] == self.cards()[j].name@);
                        }
                        self.index.lemma_name_reaches_first(key, i);
                    }
                },
                _ => {},
            }
        }
        Ok(match identifier {
            Identifier::Name(name) => match self.index.find(name.as_str()) {
                Some(card) => Some(card.duplicate()),
                None => None,
            },
            Identifier::Code(code) => {
                let fragment = code.id_fragment();
                self.find_id_fragment(fragment.as_str())
            },
            Identifier::Id(id) => {
                let lower = string_of(lower_all(chars_of(id.as_str()).as_slice()).as_slice());
                self.find_id_fragment(lower.as_str())
            },
        })
    }
}

/// A lookup that asks `first`, and asks `second` when `first` fails, finds
/// nothing, or finds only a padded record (which still answers when
/// `second` finds nothing).
pub struct Layered<First, Second> {
    pub first: First,
    pub second: Second,
}

/// Whether a record only fills a gap: no kind, no text, no domain.
pub open spec fn padded(c: CatalogCard) -> bool {
    c.kind == CardKind::Other && c.text is None && c.domain@.len() == 0
}

/// Whether `first`'s answer settles a layered lookup: a card that is not
/// padded.
pub open spec fn settles(first: Result<Option<CatalogCard>, LookupError>) -> bool {
    match first {
        Ok(Some(card)) => !padded(card),
        _ => false,
    }
}

/// What a layered lookup answers, given what `first` answered and, when it
/// was asked, what `second` answered.
pub open spec fn layered_answer(
    first: Result<Option<CatalogCard>, LookupError>,
    second: Result<Option<CatalogCard>, LookupError>,
) -> Result<Option<CatalogCard>, LookupError> {
    match first {
        Ok(Some(card)) => match second {
            Ok(Some(better)) => Ok(Some(better)),
            Ok(None) => Ok(Some(card)),
            Err(e) => Err(e),
        },
        _ => second,
    }
}

fn layered(
    first: Result<Option<CatalogCard>, LookupError>,
    second: Result<Option<CatalogCard>, LookupError>,
) -> (r: Result<Option<CatalogCard>, LookupError>)
    ensures
        r == layered_answer(first, second),
{
    match first {
        Ok(Some(card)) => match second {
            Ok(Some(better)) => Ok(Some(better)),
            Ok(None) => Ok(Some(card)),
            Err(e) => Err(e),
        },
        _ => second,
    }
}

impl<First: Lookup<Riftbound>, Second: Lookup<Riftbound>> Lookup<Riftbound> for Layered<First, Second> {
    /// `first` is asked; a card that is not padded is the answer and
    /// `second` is left alone; else `second` is asked too and the answers
    /// combine as `layered_answer` says.
    open spec fn answers(&self, identifier: Identifier, r: Result<Option<CatalogCard>, LookupError>, after: Self) -> bool {
        exists|r1: Result<Option<CatalogCard>, LookupError>| {
            &&& #[trigger] self.first.answers(identifier, r1, after.first)
            &&& if settles(r1) {
                r == r1 && after.second == self.second
            } else {
                exists|r2: Result<Option<CatalogCard>, LookupError>| #[trigger] self.second.answers(identifier, r2, after.second)
                    && r == layered_answer(r1, r2)
            }
        }
    }

    fn find(&mut self, identifier: &Identifier) -> (r: Result<Option<CatalogCard>, LookupError>) {
        let ghost start = *self;
        let r1 = self.first.find(identifier);
        let ghost mid = *self;
        assert(start.first.answers(*identifier, r1, mid.first));
        let settled = match &r1 {
            Ok(Some(card)) => !card.is_padded(),
            _ => false,
        };
        assert(settled == settles(r1));
        if settled {
            return r1;
        }
        let r2 = self.second.find(identifier);
        assert(mid.second.answers(*identifier, r2, self.second));
        assert(self.first == mid.first);
        layered(r1, r2)
    }
}

} // verus!
