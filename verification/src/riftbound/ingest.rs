//! The Riftbound card store records: what the importer keeps of each card,
//! and how a record becomes a catalog card and back.
use vstd::prelude::*;
use crate::art::WantedArt;
use crate::riftbound::catalog::{kind_name, kind_of, CardKind, CatalogCard, StaticCatalog, SUPERTYPE_CHAMPION, SUPERTYPE_SIGNATURE};
use crate::riftbound::resolve::{canonical, canonical_name};
use crate::riftbound::resolved::{copy_opt_text, copy_texts, opt_text, texts};
use crate::riftbound::riftcodex::{first_exact, is_word, nonempty, small, small_spec, ApiCard};
use crate::text::{chars_of, lower_all, lower_seq, same, string_of};

verus! {

/// The store ref the manifest is published under.
pub const REF_NAME: &'static str = "riftbound";
/// The journal of fetched card images.
pub const JOURNAL_FILE: &'static str = "riftbound-images";
/// The pause between two card fetches of one deck, in milliseconds.
pub const DECK_THROTTLE_MS: u64 = 250u64;

/// The published list of every stored card.
pub struct RiftboundManifest {
    pub set: String,
    pub cards: Vec<RiftboundCard>,
}

/// A stored card record.
#[derive(Debug, Clone)]
pub struct RiftboundCard {
    pub name: String,
    pub image: String,
    pub riftbound_id: String,
    pub card_type: String,
    pub supertype: String,
    pub rarity: String,
    pub domain: Vec<String>,
    pub energy: Option<i64>,
    pub might: Option<i64>,
    pub power: Option<i64>,
    pub text: String,
    pub set_id: String,
    pub set_label: String,
    pub collector_number: Option<i64>,
    pub clean_name: String,
    pub image_url: String,
    pub tags: Vec<String>,
}

/// An optional text, empty when absent.
pub open spec fn or_empty(o: Option<String>) -> Seq<char> {
    match o {
        Some(s) => s@,
        None => Seq::empty(),
    }
}

fn text_or_empty(o: &Option<String>) -> (r: String)
    ensures
        r@ == or_empty(*o),
{
    match o {
        Some(s) => s.clone(),
        None => string_of(Vec::<char>::new().as_slice()),
    }
}

/// The record of an API card, with the blob its image is stored as.
pub fn record(card: &ApiCard, image: String) -> (r: RiftboundCard)
    ensures
        r.name@ == canonical(card.riftbound_id@, card.name@),
        r.image@ == image@,
        r.riftbound_id@ == card.riftbound_id@,
        r.card_type@ == or_empty(card.classification.card_type),
        r.supertype@ == or_empty(card.classification.supertype),
        r.rarity@ == or_empty(card.classification.rarity),
        texts(r.domain@) == texts(card.classification.domain@),
        r.energy == card.attributes.energy,
        r.might == card.attributes.might,
        r.power == card.attributes.power,
        r.text@ == or_empty(card.text.plain),
        r.set_id@ == card.set.set_id@,
        r.set_label@ == or_empty(card.set.label),
        r.collector_number == card.collector_number,
        r.clean_name@ == or_empty(card.metadata.clean_name),
        r.image_url@ == or_empty(card.media.image_url),
        texts(r.tags@) == texts(card.tags@),
{
    RiftboundCard {
        name: canonical_name(card.riftbound_id.as_str(), card.name.as_str()),
        image,
        riftbound_id: card.riftbound_id.clone(),
        card_type: text_or_empty(&card.classification.card_type),
        supertype: text_or_empty(&card.classification.supertype),
        rarity: text_or_empty(&card.classification.rarity),
        domain: copy_texts(&card.classification.domain),
        energy: card.attributes.energy,
        might: card.attributes.might,
        power: card.attributes.power,
        text: text_or_empty(&card.text.plain),
        set_id: card.set.set_id.clone(),
        set_label: text_or_empty(&card.set.label),
        collector_number: card.collector_number,
        clean_name: text_or_empty(&card.metadata.clean_name),
        image_url: text_or_empty(&card.media.image_url),
        tags: copy_texts(&card.tags),
    }
}

/// A text that is not empty, else none.
pub open spec fn present(s: Seq<char>) -> Option<Seq<char>> {
    nonempty(Some(s))
}

fn present_of(s: &String) -> (r: Option<String>)
    ensures
        opt_text(r) == present(s@),
{
    if s.as_str().is_empty() {
        None
    } else {
        Some(s.clone())
    }
}

/// Whether `c` is the catalog card of the stored record `card`.
pub open spec fn stored_card(c: CatalogCard, card: RiftboundCard) -> bool {
    &&& c.name@ == canonical(card.riftbound_id@, card.name@)
    &&& c.riftbound_id@ == card.riftbound_id@
    &&& c.kind == kind_of(card.card_type@)
    &&& c.champion == (card.supertype@ == SUPERTYPE_CHAMPION@)
    &&& c.signature == (card.supertype@ == SUPERTYPE_SIGNATURE@)
    &&& c.energy == small_spec(card.energy)
    &&& c.power == small_spec(card.power)
    &&& c.might == small_spec(card.might)
    &&& opt_text(c.image_url) == present(card.image_url@)
    &&& texts(c.domain@) == texts(card.domain@)
    &&& texts(c.tags@) == texts(card.tags@)
    &&& opt_text(c.set_id) == present(card.set_id@)
    &&& opt_text(c.text) == present(card.text@)
}

/// The catalog card of a stored record.
pub fn catalog_card(card: &RiftboundCard) -> (r: CatalogCard)
    ensures
        stored_card(r, *card),
{
    let supertype = chars_of(card.supertype.as_str());
    CatalogCard {
        name: canonical_name(card.riftbound_id.as_str(), card.name.as_str()),
        riftbound_id: card.riftbound_id.clone(),
        kind: CardKind::parse(card.card_type.as_str()),
        champion: same(supertype.as_slice(), chars_of(SUPERTYPE_CHAMPION).as_slice()),
        energy: small(card.energy),
        power: small(card.power),
        might: small(card.might),
        image_url: present_of(&card.image_url),
        domain: copy_texts(&card.domain),
        tags: copy_texts(&card.tags),
        signature: same(supertype.as_slice(), chars_of(SUPERTYPE_SIGNATURE).as_slice()),
        set_id: present_of(&card.set_id),
        text: present_of(&card.text),
    }
}

/// The art a catalog card wants: keyed by its id.
pub fn wanted_art(card: &CatalogCard) -> (r: WantedArt)
    ensures
        r.key@ == card.riftbound_id@,
        r.name@ == card.name@,
        opt_text(r.image_url) == opt_text(card.image_url),
{
    WantedArt {
        key: card.riftbound_id.clone(),
        name: card.name.clone(),
        image_url: copy_opt_text(&card.image_url),
    }
}

/// A stat as the record keeps it.
pub open spec fn widened(v: Option<u8>) -> Option<i64> {
    match v {
        Some(x) => Some(x as i64),
        None => None,
    }
}

fn widen(v: Option<u8>) -> (r: Option<i64>)
    ensures
        r == widened(v),
{
    match v {
        Some(x) => Some(x as i64),
        None => None,
    }
}

/// The supertype a record keeps for a catalog card.
pub open spec fn supertype_of(c: CatalogCard) -> Seq<char> {
    if c.champion {
        SUPERTYPE_CHAMPION@
    } else if c.signature {
        SUPERTYPE_SIGNATURE@
    } else {
        Seq::empty()
    }
}

/// Whether `r` is the stored record of the catalog card `card`, with the
/// blob `image`; what the catalog does not know is left empty.
pub open spec fn recorded(card: CatalogCard, image: Seq<char>, r: RiftboundCard) -> bool {
    &&& r.name@ == card.name@
    &&& r.image@ == image
    &&& r.riftbound_id@ == card.riftbound_id@
    &&& r.card_type@ == (if card.kind == CardKind::Other {
        Seq::empty()
    } else {
        kind_name(card.kind)
    })
    &&& r.supertype@ == supertype_of(card)
    &&& r.rarity@ == Seq::<char>::empty()
    &&& texts(r.domain@) == texts(card.domain@)
    &&& r.energy == widened(card.energy)
    &&& r.might == widened(card.might)
    &&& r.power == widened(card.power)
    &&& r.text@ == or_empty(card.text)
    &&& r.set_id@ == or_empty(card.set_id)
    &&& r.set_label@ == Seq::<char>::empty()
    &&& r.collector_number is None
    &&& r.clean_name@ == Seq::<char>::empty()
    &&& r.image_url@ == or_empty(card.image_url)
    &&& texts(r.tags@) == texts(card.tags@)
}

/// A catalog card comes back from its stored record as it was, when its
/// name is already canonical, it is not both champion and signature, and
/// none of its optional texts is present but empty.
pub proof fn lemma_record_round_trip(card: CatalogCard, image: Seq<char>, r: RiftboundCard, back: CatalogCard)
    requires
        canonical(card.riftbound_id@, card.name@) == card.name@,
        !(card.champion && card.signature),
        opt_text(card.image_url) != Some(Seq::<char>::empty()),
        opt_text(card.set_id) != Some(Seq::<char>::empty()),
        opt_text(card.text) != Some(Seq::<char>::empty()),
        recorded(card, image, r),
        stored_card(back, r),
    ensures
        back.name@ == card.name@,
        back.riftbound_id@ == card.riftbound_id@,
        back.kind == card.kind,
        back.champion == card.champion,
        back.signature == card.signature,
        back.energy == card.energy,
        back.power == card.power,
        back.might == card.might,
        opt_text(back.image_url) == opt_text(card.image_url),
        texts(back.domain@) == texts(card.domain@),
        texts(back.tags@) == texts(card.tags@),
        opt_text(back.set_id) == opt_text(card.set_id),
        opt_text(back.text) == opt_text(card.text),
{
    reveal_strlit("Champion");
    reveal_strlit("Signature");
    reveal_strlit("Legend");
    reveal_strlit("Unit");
    reveal_strlit("Spell");
    reveal_strlit("Gear");
    reveal_strlit("Rune");
    reveal_strlit("Battlefield");
    reveal_strlit("legend");
    reveal_strlit("unit");
    reveal_strlit("spell");
    reveal_strlit("gear");
    reveal_strlit("rune");
    reveal_strlit("battlefield");
    assert(SUPERTYPE_CHAMPION@ != SUPERTYPE_SIGNATURE@) by {
        assert(SUPERTYPE_CHAMPION@[0] != SUPERTYPE_SIGNATURE@[0]);
    }
    assert(SUPERTYPE_CHAMPION@ != Seq::<char>::empty()) by {
        assert(SUPERTYPE_CHAMPION@.len() > 0);
    }
    assert(SUPERTYPE_SIGNATURE@ != Seq::<char>::empty()) by {
        assert(SUPERTYPE_SIGNATURE@.len() > 0);
    }
    match card.image_url {
        Some(u) => {
            if u@.len() == 0 {
                assert(u@ =~= Seq::<char>::empty());
            }
            assert(present(r.image_url@) == Some(u@));
        },
        None => assert(present(r.image_url@) is None),
    }
    match card.set_id {
        Some(u) => {
            if u@.len() == 0 {
                assert(u@ =~= Seq::<char>::empty());
            }
            assert(present(r.set_id@) == Some(u@));
        },
        None => assert(present(r.set_id@) is None),
    }
    match card.text {
        Some(u) => {
            if u@.len() == 0 {
                assert(u@ =~= Seq::<char>::empty());
            }
            assert(present(r.text@) == Some(u@));
        },
        None => assert(present(r.text@) is None),
    }
    let t = r.card_type@;
    match card.kind {
        CardKind::Other => {
            assert(t =~= Seq::<char>::empty());
            assert(lower_seq(t) =~= Seq::<char>::empty());
            assert("legend"@.len() == 6);
            assert("unit"@.len() == 4);
            assert("spell"@.len() == 5);
            assert("gear"@.len() == 4);
            assert("rune"@.len() == 4);
            assert("battlefield"@.len() == 11);
            assert(kind_of(t) == CardKind::Other);
        },
        CardKind::Legend => {
            assert(lower_seq(t) =~= "legend"@);
            assert(kind_of(t) == CardKind::Legend);
        },
        CardKind::Unit => {
            assert(lower_seq(t) =~= "unit"@);
            assert(kind_of(t) == CardKind::Unit);
        },
        CardKind::Spell => {
            assert(lower_seq(t) =~= "spell"@);
            assert(kind_of(t) == CardKind::Spell);
        },
        CardKind::Gear => {
            assert(lower_seq(t) =~= "gear"@);
            assert("gear"@[0] != "unit"@[0]);
            assert(kind_of(t) == CardKind::Gear);
        },
        CardKind::Rune => {
            assert(lower_seq(t) =~= "rune"@);
            assert("rune"@[0] != "unit"@[0]);
            assert("rune"@[0] != "gear"@[0]);
            assert(kind_of(t) == CardKind::Rune);
        },
        CardKind::Battlefield => {
            assert(lower_seq(t) =~= "battlefield"@);
            assert(kind_of(t) == CardKind::Battlefield);
        },
    }
}

/// The stored record of a catalog card, with the blob its image is
/// stored as; what the catalog does not know is left empty.
pub fn record_of(card: &CatalogCard, image: String) -> (r: RiftboundCard)
    ensures
        recorded(*card, image@, r),
{
    let supertype: &str = if card.champion {
        SUPERTYPE_CHAMPION
    } else if card.signature {
        SUPERTYPE_SIGNATURE
    } else {
        ""
    };
    proof {
        reveal_strlit("");
    }
    let empty = Vec::<char>::new();
    let ghost img = image@;
    let r = RiftboundCard {
        name: card.name.clone(),
        image,
        riftbound_id: card.riftbound_id.clone(),
        card_type: match card.kind {
            CardKind::Other => string_of(empty.as_slice()),
            kind => string_of(chars_of(kind.as_str()).as_slice()),
        },
        supertype: string_of(chars_of(supertype).as_slice()),
        rarity: string_of(empty.as_slice()),
        domain: copy_texts(&card.domain),
        energy: widen(card.energy),
        might: widen(card.might),
        power: widen(card.power),
        text: text_or_empty(&card.text),
        set_id: text_or_empty(&card.set_id),
        set_label: string_of(empty.as_slice()),
        collector_number: None,
        clean_name: string_of(empty.as_slice()),
        image_url: text_or_empty(&card.image_url),
        tags: copy_texts(&card.tags),
    };
    assert(r.image@ == img);
    assert(r.card_type@ == (if card.kind == CardKind::Other {
        Seq::empty()
    } else {
        kind_name(card.kind)
    }));
    assert(r.supertype@ == supertype_of(*card));
    assert(recorded(*card, img, r));
    r
}

/// The image link a card offers, if it offers one that is not empty.
pub open spec fn image_link(card: ApiCard) -> Option<Seq<char>> {
    match card.media.image_url {
        Some(u) => if u@.len() > 0 {
            Some(u@)
        } else {
            None
        },
        None => None,
    }
}

/// What a deck-scoped ingest does for one id.
#[derive(Debug, Clone, PartialEq, Eq)]
pub enum IdStep {
    /// The card has its record and its art is held: point the record at
    /// the art.
    Refresh,
    /// No card has this id.
    Unknown,
    /// The card has no art to fetch.
    Artless,
    /// Record the card at this position of the lookup, with the art held.
    Reuse(usize),
    /// Fetch the card's art from this link, then record the card at this
    /// position of the lookup.
    Fetch(usize, String),
}

/// What a deck-scoped ingest does for an id, given whether its art is held
/// (`stored`), whether the manifest has its record (`recorded`), and the
/// cards an id lookup gave: a held card with a record only has its record
/// refreshed; otherwise the card whose id is the id (any case) is recorded
/// with the held art, or with art fetched from its image link.
pub fn id_step(id: &str, stored: bool, recorded: bool, items: &[ApiCard]) -> (r: IdStep)
    ensures
        stored && recorded ==> r == IdStep::Refresh,
        !(stored && recorded) ==> match first_exact(items@, lower_seq(id@), 0) {
            None => r == IdStep::Unknown,
            Some(i) => if stored {
                r == IdStep::Reuse(i as usize)
            } else {
                match image_link(items@[i]) {
                    None => r == IdStep::Artless,
                    Some(u) => r matches IdStep::Fetch(j, s) && j == i && s@ == u,
                }
            },
        },
{
    if stored && recorded {
        return IdStep::Refresh;
    }
    let key = lower_all(chars_of(id).as_slice());
    let mut i: usize = 0;
    while i < items.len()
        invariant
            i <= items@.len(),
            key@ == lower_seq(id@),
            !(stored && recorded),
            first_exact(items@, key@, 0) == first_exact(items@, key@, i as int),
        decreases items@.len() - i,
    {
        let item_id = lower_all(chars_of(items[i].riftbound_id.as_str()).as_slice());
        if same(item_id.as_slice(), key.as_slice()) {
            if stored {
                return IdStep::Reuse(i);
            }
            return match &items[i].media.image_url {
                Some(u) => if chars_of(u.as_str()).len() > 0 {
                    IdStep::Fetch(i, u.clone())
                } else {
                    IdStep::Artless
                },
                None => IdStep::Artless,
            };
        }
        i = i + 1;
    }
    IdStep::Unknown
}

/// What a full ingest does for a card's image.
#[derive(Debug, Clone, PartialEq, Eq)]
pub enum ImageStep {
    /// The card has no image link: record it without art.
    Skip,
    /// The journal holds the card's art already.
    Reuse,
    /// Fetch the art from this link.
    Fetch(String),
}

/// What a full ingest does for a card's image, given whether the journal
/// holds art for the card's id.
pub fn image_step(card: &ApiCard, journaled: bool) -> (r: ImageStep)
    ensures
        match image_link(*card) {
            None => r == ImageStep::Skip,
            Some(u) => if journaled {
                r == ImageStep::Reuse
            } else {
                r matches ImageStep::Fetch(s) && s@ == u
            },
        },
{
    match &card.media.image_url {
        Some(u) => if chars_of(u.as_str()).len() == 0 {
            ImageStep::Skip
        } else if journaled {
            ImageStep::Reuse
        } else {
            ImageStep::Fetch(u.clone())
        },
        None => ImageStep::Skip,
    }
}

/// The catalog of a published manifest: one card per stored record, in
/// manifest order.
pub fn catalog_of(manifest: &RiftboundManifest) -> (r: StaticCatalog)
    ensures
        r.cards().len() == manifest.cards@.len(),
        forall|i: int| 0 <= i < r.cards().len() ==> stored_card(#[trigger] r.cards()[i], manifest.cards@[i]),
{
    let mut cards: Vec<CatalogCard> = Vec::new();
    let mut i: usize = 0;
    while i < manifest.cards.len()
        invariant
            i <= manifest.cards@.len(),
            cards@.len() == i,
            forall|j: int| 0 <= j < i ==> stored_card(#[trigger] cards@[j], manifest.cards@[j]),
        decreases manifest.cards@.len() - i,
    {
        cards.push(catalog_card(&manifest.cards[i]));
        i = i + 1;
    }
    StaticCatalog::new(cards)
}

/// What a deck-scoped ingest did: the manifest it published, if it
/// changed one (by its blob hash), and the ids whose art it fetched, whose
/// held art it reused, that no card has, and whose card has no art.
#[derive(Debug, Clone, PartialEq, Eq)]
pub struct IngestedIds {
    pub manifest: Option<String>,
    pub fetched: Vec<String>,
    pub reused: Vec<String>,
    pub unknown: Vec<String>,
    pub artless: Vec<String>,
}

impl IngestedIds {
    /// Nothing done yet.
    pub fn new() -> (r: Self)
        ensures
            r.manifest is None,
            r.fetched@.len() == 0,
            r.reused@.len() == 0,
            r.unknown@.len() == 0,
            r.artless@.len() == 0,
    {
        IngestedIds { manifest: None, fetched: Vec::new(), reused: Vec::new(), unknown: Vec::new(), artless: Vec::new() }
    }

    /// Notes what was done for the id `key`: a refreshed or reused card is
    /// reused, an unknown id unknown, a card with no art artless, and
    /// fetched art fetched.
    pub fn note(&mut self, key: String, step: &IdStep)
        ensures
            final(self).manifest == old(self).manifest,
            final(self).reused@ == match *step {
                IdStep::Refresh | IdStep::Reuse(_) => old(self).reused@.push(key),
                _ => old(self).reused@,
            },
            final(self).unknown@ == match *step {
                IdStep::Unknown => old(self).unknown@.push(key),
                _ => old(self).unknown@,
            },
            final(self).artless@ == match *step {
                IdStep::Artless => old(self).artless@.push(key),
                _ => old(self).artless@,
            },
            final(self).fetched@ == match *step {
                IdStep::Fetch(_, _) => old(self).fetched@.push(key),
                _ => old(self).fetched@,
            },
    {
        match step {
            IdStep::Refresh | IdStep::Reuse(_) => self.reused.push(key),
            IdStep::Unknown => self.unknown.push(key),
            IdStep::Artless => self.artless.push(key),
            IdStep::Fetch(_, _) => self.fetched.push(key),
        }
    }
}

/// Whether a step changes the manifest: a refresh only when the record
/// pointed at other art (`repointed`), a card recorded always, an unknown
/// or artless id never.
pub fn step_changes(step: &IdStep, repointed: bool) -> (r: bool)
    ensures
        r == match *step {
            IdStep::Refresh => repointed,
            IdStep::Reuse(_) | IdStep::Fetch(_, _) => true,
            IdStep::Unknown | IdStep::Artless => false,
        },
{
    match step {
        IdStep::Refresh => repointed,
        IdStep::Reuse(_) | IdStep::Fetch(_, _) => true,
        IdStep::Unknown | IdStep::Artless => false,
    }
}

/// What a deck-art ingest does with one fetched image.
#[derive(Debug, Clone, PartialEq, Eq)]
pub enum ArtMerge {
    /// The manifest's record points at other art: point it at this image.
    Repoint,
    /// The manifest's record already points at this image.
    Same,
    /// No record yet: record the card at this position of the deck's cards.
    Record(usize),
    /// No record and no card of the deck has the id.
    Skip,
}

/// The first of the cards whose id is `key`, ignoring ASCII case.
pub open spec fn card_with_id(cards: Seq<CatalogCard>, key: Seq<char>, i: int) -> Option<int>
    decreases cards.len() - i,
{
    if i < 0 || i >= cards.len() {
        None
    } else if lower_seq(cards[i].riftbound_id@) == lower_seq(key) {
        Some(i)
    } else {
        card_with_id(cards, key, i + 1)
    }
}

/// What a deck-art ingest does with the image `hash` fetched for `key`,
/// given the image the manifest records for that id (`recorded`, when it
/// has a record) and the deck's cards: a record is pointed at the image
/// when it points elsewhere; without a record, the deck's card with that
/// id (any case) is recorded.
pub fn art_merge(key: &str, hash: &str, recorded: Option<&str>, cards: &[CatalogCard]) -> (r: ArtMerge)
    ensures
        match recorded {
            Some(image) => r == if image@ == hash@ {
                ArtMerge::Same
            } else {
                ArtMerge::Repoint
            },
            None => match card_with_id(cards@, key@, 0) {
                Some(i) => r == ArtMerge::Record(i as usize),
                None => r == ArtMerge::Skip,
            },
        },
{
    match recorded {
        Some(image) => {
            if same(chars_of(image).as_slice(), chars_of(hash).as_slice()) {
                ArtMerge::Same
            } else {
                ArtMerge::Repoint
            }
        },
        None => {
            let wanted = lower_all(chars_of(key).as_slice());
            let mut i: usize = 0;
            while i < cards.len()
                invariant
                    i <= cards@.len(),
                    recorded is None,
                    wanted@ == lower_seq(key@),
                    card_with_id(cards@, key@, 0) == card_with_id(cards@, key@, i as int),
                decreases cards@.len() - i,
            {
                let id = lower_all(chars_of(cards[i].riftbound_id.as_str()).as_slice());
                if same(id.as_slice(), wanted.as_slice()) {
                    return ArtMerge::Record(i);
                }
                i = i + 1;
            }
            ArtMerge::Skip
        },
    }
}

/// Whether a merge changes the manifest, which is published only then.
pub fn merge_changes(m: &ArtMerge) -> (r: bool)
    ensures
        r == (*m is Repoint || *m is Record),
{
    match m {
        ArtMerge::Repoint | ArtMerge::Record(_) => true,
        ArtMerge::Same | ArtMerge::Skip => false,
    }
}

} // verus!
