//! The Riftcodex card API, as the importer reads it: the records it
//! answers with, the requests it is asked, and how an answer picks a card.
use vstd::prelude::*;
use crate::naming::{encode_component, normalize_name, normalized};
use crate::riftbound::catalog::{kind_of, CardKind, CatalogCard, SUPERTYPE_CHAMPION, SUPERTYPE_SIGNATURE};
use crate::riftbound::resolve::{canonical, canonical_name};
use crate::riftbound::resolved::{copy_opt_text, copy_texts, opt_text, texts};
use crate::deck::catalog::LookupError;
use crate::riftbound::card_code::id_fragment_text;
use crate::riftbound::Identifier;
use crate::text::{chars_of, decimal, extend, lower_all, lower_seq, push_decimal_usize, same, starts, starts_with, string_of};
use crate::transport::{gave_up_message, GaveUp, TransportError};

verus! {

pub const API_BASE: &'static str = "https://api.riftcodex.com";
pub const PAGE_SIZE: usize = 100usize;
/// The pause between two requests, in milliseconds.
pub const THROTTLE_MS: u64 = 1000u64;

/// One page of the card listing.
#[derive(Debug, Clone)]
pub struct Page {
    pub items: Vec<ApiCard>,
    pub total: usize,
    pub page: usize,
    pub pages: usize,
}

/// A card record as the API answers it.
#[derive(Debug, Clone)]
pub struct ApiCard {
    pub name: String,
    pub riftbound_id: String,
    pub collector_number: Option<i64>,
    pub classification: Classification,
    pub attributes: Attributes,
    pub text: CardText,
    pub set: SetInfo,
    pub media: Media,
    pub tags: Vec<String>,
    pub metadata: Metadata,
}

#[derive(Debug, Clone)]
pub struct Classification {
    pub card_type: Option<String>,
    pub supertype: Option<String>,
    pub rarity: Option<String>,
    pub domain: Vec<String>,
}

#[derive(Debug, Clone, Default)]
pub struct Attributes {
    pub energy: Option<i64>,
    pub might: Option<i64>,
    pub power: Option<i64>,
}

#[derive(Debug, Clone, Default)]
pub struct CardText {
    pub plain: Option<String>,
    pub flavour: Option<String>,
}

#[derive(Debug, Clone)]
pub struct SetInfo {
    pub set_id: String,
    pub label: Option<String>,
}

#[derive(Debug, Clone, Default)]
pub struct Media {
    pub image_url: Option<String>,
}

#[derive(Debug, Clone, Default)]
pub struct Metadata {
    pub clean_name: Option<String>,
}

/// A stat that fits a byte, else none.
pub open spec fn small_spec(value: Option<i64>) -> Option<u8> {
    match value {
        Some(v) => if 0 <= v <= 255 {
            Some(v as u8)
        } else {
            None
        },
        None => None,
    }
}

/// A stat as a byte, when it fits one.
pub fn small(value: Option<i64>) -> (r: Option<u8>)
    ensures
        r == small_spec(value),
{
    match value {
        Some(v) => if 0 <= v && v <= 255 {
            Some(v as u8)
        } else {
            None
        },
        None => None,
    }
}

/// A text kept only when it is not empty.
pub open spec fn nonempty(s: Option<Seq<char>>) -> Option<Seq<char>> {
    match s {
        Some(t) => if t.len() > 0 {
            Some(t)
        } else {
            None
        },
        None => None,
    }
}

/// Whether an optional text is exactly `word`.
pub open spec fn is_word(s: Option<String>, word: Seq<char>) -> bool {
    match s {
        Some(t) => t@ == word,
        None => false,
    }
}

fn is_word_of(s: &Option<String>, word: &str) -> (r: bool)
    ensures
        r == is_word(*s, word@),
{
    match s {
        Some(t) => same(chars_of(t.as_str()).as_slice(), chars_of(word).as_slice()),
        None => false,
    }
}

/// Whether `c` is the catalog record of the API card `a`: the canonical
/// name, the id, the kind its type names, its supertype flags, its stats
/// as bytes, its art, domains and tags, and its set and rules text when
/// they are not empty.
pub open spec fn carded(c: CatalogCard, a: ApiCard) -> bool {
    &&& c.name@ == canonical(a.riftbound_id@, a.name@)
    &&& c.riftbound_id@ == a.riftbound_id@
    &&& c.kind == match a.classification.card_type {
        Some(t) => kind_of(t@),
        None => CardKind::Other,
    }
    &&& c.champion == is_word(a.classification.supertype, SUPERTYPE_CHAMPION@)
    &&& c.signature == is_word(a.classification.supertype, SUPERTYPE_SIGNATURE@)
    &&& c.energy == small_spec(a.attributes.energy)
    &&& c.power == small_spec(a.attributes.power)
    &&& c.might == small_spec(a.attributes.might)
    &&& opt_text(c.image_url) == opt_text(a.media.image_url)
    &&& texts(c.domain@) == texts(a.classification.domain@)
    &&& texts(c.tags@) == texts(a.tags@)
    &&& opt_text(c.set_id) == nonempty(Some(a.set.set_id@))
    &&& opt_text(c.text) == nonempty(opt_text(a.text.plain))
}

/// The catalog record of an API card.
pub fn catalog_card(card: &ApiCard) -> (r: CatalogCard)
    ensures
        carded(r, *card),
{
    let kind = match &card.classification.card_type {
        Some(t) => CardKind::parse(t.as_str()),
        None => CardKind::Other,
    };
    let set_id = if card.set.set_id.as_str().is_empty() {
        None
    } else {
        Some(card.set.set_id.clone())
    };
    let text = match &card.text.plain {
        Some(t) => if t.as_str().is_empty() {
            None
        } else {
            Some(t.clone())
        },
        None => None,
    };
    CatalogCard {
        name: canonical_name(card.riftbound_id.as_str(), card.name.as_str()),
        riftbound_id: card.riftbound_id.clone(),
        kind,
        champion: is_word_of(&card.classification.supertype, SUPERTYPE_CHAMPION),
        energy: small(card.attributes.energy),
        power: small(card.attributes.power),
        might: small(card.attributes.might),
        image_url: copy_opt_text(&card.media.image_url),
        domain: copy_texts(&card.classification.domain),
        tags: copy_texts(&card.tags),
        signature: is_word_of(&card.classification.supertype, SUPERTYPE_SIGNATURE),
        set_id,
        text,
    }
}


/// Whether `a` sorts strictly before `b`, character by character.
pub open spec fn lex_lt(a: Seq<char>, b: Seq<char>) -> bool
    decreases a.len(),
{
    if a.len() == 0 {
        b.len() > 0
    } else if b.len() == 0 {
        false
    } else if a[0] != b[0] {
        (a[0] as u32) < (b[0] as u32)
    } else {
        lex_lt(a.drop_first(), b.drop_first())
    }
}

pub(crate) fn lex_less(a: &[char], b: &[char]) -> (r: bool)
    ensures
        r == lex_lt(a@, b@),
{
    let mut i: usize = 0;
    assert(a@.skip(0) =~= a@);
    assert(b@.skip(0) =~= b@);
    while i < a.len() && i < b.len() && a[i] == b[i]
        invariant
            i <= a@.len(),
            i <= b@.len(),
            lex_lt(a@, b@) == lex_lt(a@.skip(i as int), b@.skip(i as int)),
        decreases a@.len() - i,
    {
        assert(a@.skip(i as int).drop_first() =~= a@.skip(i as int + 1));
        assert(b@.skip(i as int).drop_first() =~= b@.skip(i as int + 1));
        i = i + 1;
    }
    if i == a.len() {
        assert(a@.skip(i as int).len() == 0);
        i < b.len()
    } else if i == b.len() {
        false
    } else {
        assert(a@.skip(i as int)[0] == a@[i as int]);
        assert(b@.skip(i as int)[0] == b@[i as int]);
        (a[i] as u32) < (b[i] as u32)
    }
}

/// Whether an API card carries the wanted (normalized) name: as listed, as
/// its canonical name, or as its clean name.
pub open spec fn named(item: ApiCard, wanted: Seq<char>) -> bool {
    ||| normalized(item.name@) == wanted
    ||| normalized(canonical(item.riftbound_id@, item.name@)) == wanted
    ||| match item.metadata.clean_name {
        Some(clean) => normalized(clean@) == wanted,
        None => false,
    }
}

fn named_of(item: &ApiCard, wanted: &[char]) -> (r: bool)
    ensures
        r == named(*item, wanted@),
{
    if same(chars_of(normalize_name(item.name.as_str()).as_str()).as_slice(), wanted) {
        return true;
    }
    let canon = canonical_name(item.riftbound_id.as_str(), item.name.as_str());
    if same(chars_of(normalize_name(canon.as_str()).as_str()).as_slice(), wanted) {
        return true;
    }
    match &item.metadata.clean_name {
        Some(clean) => same(chars_of(normalize_name(clean.as_str()).as_str()).as_slice(), wanted),
        None => false,
    }
}

/// Among the first `n` items, the first of those carrying the wanted name
/// whose lower-case id sorts lowest.
pub open spec fn best_named(items: Seq<ApiCard>, wanted: Seq<char>, n: int) -> Option<int>
    decreases n,
{
    if n <= 0 {
        None
    } else {
        let best = best_named(items, wanted, n - 1);
        if named(items[n - 1], wanted) && match best {
            Some(b) => lex_lt(lower_seq(items[n - 1].riftbound_id@), lower_seq(items[b].riftbound_id@)),
            None => true,
        } {
            Some(n - 1)
        } else {
            best
        }
    }
}

/// The item a name search picks: the lowest-id item carrying the name,
/// else the only item.
pub open spec fn name_pick(items: Seq<ApiCard>, name: Seq<char>) -> Option<int> {
    match best_named(items, normalized(name), items.len() as int) {
        Some(i) => Some(i),
        None => if items.len() == 1 {
            Some(0)
        } else {
            None
        },
    }
}

proof fn lemma_best_named_bounds(items: Seq<ApiCard>, wanted: Seq<char>, n: int)
    ensures
        best_named(items, wanted, n) matches Some(i) ==> 0 <= i < n,
    decreases n,
{
    if n > 0 {
        lemma_best_named_bounds(items, wanted, n - 1);
    }
}

/// The card a name search picks out of the API's answer.
pub fn pick_by_name(items: &[ApiCard], name: &str) -> (r: Option<CatalogCard>)
    ensures
        match name_pick(items@, name@) {
            Some(i) => r matches Some(c) && 0 <= i < items@.len() && carded(c, items@[i]),
            None => r is None,
        },
{
    let wanted = chars_of(normalize_name(name).as_str());
    let mut best: Option<usize> = None;
    let mut best_key: Vec<char> = Vec::new();
    let mut i: usize = 0;
    while i < items.len()
        invariant
            i <= items@.len(),
            wanted@ == normalized(name@),
            best == match best_named(items@, wanted@, i as int) {
                Some(b) => Some(b as usize),
                None => None::<usize>,
            },
            best_named(items@, wanted@, i as int) matches Some(b) ==> 0 <= b < i && best_key@ == lower_seq(items@[b].riftbound_id@),
        decreases items@.len() - i,
    {
        proof {
            lemma_best_named_bounds(items@, wanted@, i as int);
        }
        if named_of(&items[i], wanted.as_slice()) {
            let key = lower_all(chars_of(items[i].riftbound_id.as_str()).as_slice());
            let better = match best {
                Some(_) => lex_less(key.as_slice(), best_key.as_slice()),
                None => true,
            };
            if better {
                best = Some(i);
                best_key = key;
            }
        }
        i = i + 1;
    }
    proof {
        lemma_best_named_bounds(items@, wanted@, items@.len() as int);
    }
    match best {
        Some(b) => Some(catalog_card(&items[b])),
        None => if items.len() == 1 {
            Some(catalog_card(&items[0]))
        } else {
            None
        },
    }
}

/// The first item whose lower-case id is `fragment`.
pub open spec fn first_exact(items: Seq<ApiCard>, fragment: Seq<char>, i: int) -> Option<int>
    decreases items.len() - i,
{
    if i < 0 || i >= items.len() {
        None
    } else if lower_seq(items[i].riftbound_id@) == fragment {
        Some(i)
    } else {
        first_exact(items, fragment, i + 1)
    }
}

/// The first item whose lower-case id begins with `prefix`.
pub open spec fn first_prefixed(items: Seq<ApiCard>, prefix: Seq<char>, i: int) -> Option<int>
    decreases items.len() - i,
{
    if i < 0 || i >= items.len() {
        None
    } else if starts(lower_seq(items[i].riftbound_id@), prefix) {
        Some(i)
    } else {
        first_prefixed(items, prefix, i + 1)
    }
}

/// Whether some item with an id beginning with `prefix` has an id other
/// than `id`.
pub open spec fn other_prefixed(items: Seq<ApiCard>, prefix: Seq<char>, id: Seq<char>) -> bool {
    exists|j: int| 0 <= j < items.len() && starts(lower_seq((#[trigger] items[j]).riftbound_id@), prefix)
        && lower_seq(items[j].riftbound_id@) != id
}

/// The item an id search picks: the item with exactly the id, else the
/// one id that continues it past a `-`.
pub open spec fn fragment_pick(items: Seq<ApiCard>, fragment: Seq<char>) -> Option<int> {
    let f = lower_seq(fragment);
    match first_exact(items, f, 0) {
        Some(i) => Some(i),
        None => {
            let prefix = f.push('-');
            match first_prefixed(items, prefix, 0) {
                None => None,
                Some(i) => if other_prefixed(items, prefix, lower_seq(items[i].riftbound_id@)) {
                    None
                } else {
                    Some(i)
                },
            }
        },
    }
}

proof fn lemma_first_bounds(items: Seq<ApiCard>, f: Seq<char>, i: int)
    requires
        0 <= i,
    ensures
        first_exact(items, f, i) matches Some(k) ==> i <= k < items.len(),
        first_prefixed(items, f, i) matches Some(k) ==> i <= k < items.len() && starts(lower_seq(items[k].riftbound_id@), f),
        first_prefixed(items, f, i) is None ==> forall|j: int| i <= j < items.len() ==> !starts(lower_seq((#[trigger] items[j]).riftbound_id@), f),
    decreases items.len() - i,
{
    if 0 <= i < items.len() {
        lemma_first_bounds(items, f, i + 1);
    }
}

/// The card an id search picks out of the API's answer.
pub fn pick_by_fragment(items: &[ApiCard], fragment: &str) -> (r: Option<CatalogCard>)
    ensures
        match fragment_pick(items@, fragment@) {
            Some(i) => r matches Some(c) && 0 <= i < items@.len() && carded(c, items@[i]),
            None => r is None,
        },
{
    let f = lower_all(chars_of(fragment).as_slice());
    let mut i: usize = 0;
    while i < items.len()
        invariant
            i <= items@.len(),
            f@ == lower_seq(fragment@),
            first_exact(items@, f@, 0) == first_exact(items@, f@, i as int),
        decreases items@.len() - i,
    {
        let id = lower_all(chars_of(items[i].riftbound_id.as_str()).as_slice());
        if same(id.as_slice(), f.as_slice()) {
            return Some(catalog_card(&items[i]));
        }
        i = i + 1;
    }
    let mut prefix = f.clone();
    prefix.push('-');
    assert(prefix@ == f@.push('-'));
    let mut first: Option<usize> = None;
    let mut first_id: Vec<char> = Vec::new();
    let mut k: usize = 0;
    while k < items.len()
        invariant
            k <= items@.len(),
            f@ == lower_seq(fragment@),
            prefix@ == f@.push('-'),
            first_exact(items@, f@, 0) is None,
            match first {
                None => first_prefixed(items@, prefix@, 0) == first_prefixed(items@, prefix@, k as int),
                Some(a) => first_prefixed(items@, prefix@, 0) == Some(a as int) && a < k
                    && first_id@ == lower_seq(items@[a as int].riftbound_id@)
                    && forall|j: int| 0 <= j < k ==> (starts(lower_seq((#[trigger] items@[j]).riftbound_id@), prefix@)
                        ==> lower_seq(items@[j].riftbound_id@) == first_id@),
            },
        decreases items@.len() - k,
    {
        let id = lower_all(chars_of(items[k].riftbound_id.as_str()).as_slice());
        if starts_with(id.as_slice(), prefix.as_slice()) {
            match first {
                None => {
                    proof {
                        lemma_first_bounds(items@, prefix@, 0);
                        assert forall|j: int| 0 <= j < k implies !starts(lower_seq((#[trigger] items@[j]).riftbound_id@), prefix@) by {
                            lemma_first_prefix_none_before(items@, prefix@, k as int, j);
                        }
                    }
                    first = Some(k);
                    first_id = id;
                },
                Some(_) => {
                    if !same(id.as_slice(), first_id.as_slice()) {
                        return None;
                    }
                },
            }
        }
        k = k + 1;
    }
    match first {
        Some(a) => {
            proof {
                assert forall|j: int| 0 <= j < items@.len() && starts(lower_seq((#[trigger] items@[j]).riftbound_id@), prefix@)
                    implies lower_seq(items@[j].riftbound_id@) == lower_seq(items@[a as int].riftbound_id@) by {}
            }
            Some(catalog_card(&items[a]))
        },
        None => None,
    }
}

proof fn lemma_first_prefix_none_before(items: Seq<ApiCard>, prefix: Seq<char>, k: int, j: int)
    requires
        0 <= j < k <= items.len(),
        first_prefixed(items, prefix, 0) == first_prefixed(items, prefix, k),
    ensures
        !starts(lower_seq(items[j].riftbound_id@), prefix),
{
    lemma_first_from_zero(items, prefix, k, j);
}

proof fn lemma_first_from_zero(items: Seq<ApiCard>, prefix: Seq<char>, k: int, j: int)
    requires
        0 <= j < k <= items.len(),
        first_prefixed(items, prefix, 0) == first_prefixed(items, prefix, k),
    ensures
        !starts(lower_seq(items[j].riftbound_id@), prefix),
{
    lemma_first_bounds(items, prefix, 0);
    lemma_first_bounds(items, prefix, k);
    lemma_first_at_most(items, prefix, 0, j);
}

/// If the item at `j` qualifies, the search from `i <= j` stops at or
/// before `j`.
proof fn lemma_first_at_most(items: Seq<ApiCard>, prefix: Seq<char>, i: int, j: int)
    requires
        0 <= i <= j < items.len(),
    ensures
        starts(lower_seq(items[j].riftbound_id@), prefix) ==> (first_prefixed(items, prefix, i) matches Some(x) && x <= j),
    decreases j - i,
{
    if i < j && !starts(lower_seq(items[i].riftbound_id@), prefix) {
        lemma_first_at_most(items, prefix, i + 1, j);
    }
}


/// The base address without its trailing slashes.
pub open spec fn base_spec(base: Seq<char>) -> Seq<char>
    decreases base.len(),
{
    if base.len() > 0 && base.last() == '/' {
        base_spec(base.drop_last())
    } else {
        base
    }
}

/// The base address requests go to: `base` without trailing slashes.
pub fn base_of(base: &str) -> (r: String)
    ensures
        r@ == base_spec(base@),
{
    let cs = chars_of(base);
    let mut n: usize = cs.len();
    assert(cs@.take(n as int) =~= cs@);
    while n > 0 && cs[n - 1] == '/'
        invariant
            n <= cs@.len(),
            cs@ == base@,
            base_spec(base@) == base_spec(cs@.take(n as int)),
        decreases n,
    {
        assert(cs@.take(n as int).drop_last() =~= cs@.take(n - 1));
        n = n - 1;
    }
    string_of(crate::text::slice(cs.as_slice(), 0, n).as_slice())
}

/// The request a lookup sends: a fuzzy name search, or an id search for a
/// fragment.
#[derive(Debug, Clone, PartialEq, Eq)]
pub enum Request {
    Fuzzy(String),
    PartialId(String),
}

/// The request for an identifier: names search by name, codes by their id
/// fragment, ids by themselves.
pub open spec fn request_spec(identifier: Identifier) -> (bool, Seq<char>) {
    match identifier {
        Identifier::Name(n) => (true, n@),
        Identifier::Code(c) => (false, id_fragment_text(c)),
        Identifier::Id(i) => (false, i@),
    }
}

pub fn request_for(identifier: &Identifier) -> (r: Request)
    ensures
        match r {
            Request::Fuzzy(n) => request_spec(*identifier) == (true, n@),
            Request::PartialId(f) => request_spec(*identifier) == (false, f@),
        },
{
    match identifier {
        Identifier::Name(name) => Request::Fuzzy(name.clone()),
        Identifier::Code(code) => Request::PartialId(code.id_fragment()),
        Identifier::Id(id) => Request::PartialId(id.clone()),
    }
}

/// The path a request asks for, its text escaped.
pub fn request_path(request: &Request) -> (r: String)
    ensures
        r@ == match *request {
            Request::Fuzzy(n) => "/cards/name?fuzzy="@ + crate::naming::encoded_bytes(vstd::utf8::encode_utf8(n@)),
            Request::PartialId(f) => "/cards/riftbound/"@ + crate::naming::encoded_bytes(vstd::utf8::encode_utf8(f@)),
        },
{
    let (head, text) = match request {
        Request::Fuzzy(n) => ("/cards/name?fuzzy=", n),
        Request::PartialId(f) => ("/cards/riftbound/", f),
    };
    let mut out = chars_of(head);
    extend(&mut out, chars_of(encode_component(text.as_str()).as_str()).as_slice());
    string_of(out.as_slice())
}

/// The path of one page of the card listing.
pub fn page_path(page: usize) -> (r: String)
    ensures
        r@ == "/cards?size=100&page="@ + decimal(page as nat),
{
    let mut out = chars_of("/cards?size=100&page=");
    push_decimal_usize(&mut out, page);
    string_of(out.as_slice())
}

/// The card an answer picks for an identifier.
pub fn answer(identifier: &Identifier, items: &[ApiCard]) -> (r: Option<CatalogCard>)
    ensures
        match (match *identifier {
            Identifier::Name(n) => name_pick(items@, n@),
            _ => fragment_pick(items@, request_spec(*identifier).1),
        }) {
            Some(i) => r matches Some(c) && 0 <= i < items@.len() && carded(c, items@[i]),
            None => r is None,
        },
{
    match identifier {
        Identifier::Name(name) => pick_by_name(items, name.as_str()),
        Identifier::Code(code) => {
            let fragment = code.id_fragment();
            pick_by_fragment(items, fragment.as_str())
        },
        Identifier::Id(id) => pick_by_fragment(items, id.as_str()),
    }
}

/// What a fetch that gave up means: a missing card (404) is no failure
/// and reads as no answer; anything else fails the lookup, naming the
/// address and the reason.
pub fn failure_of(url: &str, gave_up: &GaveUp) -> (r: Option<LookupError>)
    ensures
        match gave_up.error {
            TransportError::Status(404) => r is None,
            _ => r matches Some(e) && e.0@ == url@ + ": "@ + gave_up_message(*gave_up),
        },
{
    match &gave_up.error {
        TransportError::Status(404) => None,
        _ => {
            let mut out = chars_of(url);
            extend(&mut out, chars_of(": ").as_slice());
            extend(&mut out, chars_of(gave_up.message().as_str()).as_slice());
            Some(LookupError(string_of(out.as_slice())))
        },
    }
}

} // verus!
