//! Card lookup: the lookup interface, prefix search over a keyed index, a
//! name index, and a cache in front of any lookup.
use vstd::prelude::*;
use crate::deck::Game;
use crate::naming::{normalize_chars, normalized};
use crate::text::{chars_of, extend, same, starts, starts_with};

verus! {

/// A failed lookup, with what went wrong.
#[derive(Debug, Clone, PartialEq, Eq)]
pub struct LookupError(pub String);

impl LookupError {
    /// The message a reader sees.
    pub fn message(&self) -> (r: String)
        ensures
            r@ == "card lookup failed: "@ + self.0@,
    {
        let mut out = chars_of("card lookup failed: ");
        extend(&mut out, chars_of(self.0.as_str()).as_slice());
        crate::text::string_of(out.as_slice())
    }
}

/// Finds the card an identifier stands for: `Ok(None)` when there is none,
/// `Err` when the lookup itself failed.
pub trait CardLookup<G: Game>: Sized {
    /// What a lookup promises of a call: that it may answer `r` for
    /// `identifier` and be left as `after`. A lookup that promises nothing
    /// keeps this default.
    open spec fn answers(&self, identifier: G::Identifier, r: Result<Option<G::Card>, LookupError>, after: Self) -> bool {
        true
    }

    fn find(&mut self, identifier: &G::Identifier) -> (r: Result<Option<G::Card>, LookupError>)
        ensures
            old(self).answers(*identifier, r, *final(self)),
    ;
}

/// How many keys of `index` start with `p`.
pub open spec fn prefixed_count<V>(index: Seq<(String, V)>, p: Seq<char>) -> nat
    decreases index.len(),
{
    if index.len() == 0 {
        0
    } else {
        prefixed_count(index.drop_last(), p) + if starts(index.last().0@, p) {
            1nat
        } else {
            0nat
        }
    }
}

/// The first position whose key is exactly `key`.
pub open spec fn exact_at<V>(index: Seq<(String, V)>, key: Seq<char>, i: int) -> Option<int>
    decreases index.len() - i,
{
    if i < 0 || i >= index.len() {
        None
    } else if index[i].0@ == key {
        Some(i)
    } else {
        exact_at(index, key, i + 1)
    }
}

/// The position a unique-prefix search lands on: the entry keyed exactly
/// `key`, else the one entry whose key continues `key` with `separator`.
pub open spec fn prefix_hit<V>(index: Seq<(String, V)>, key: Seq<char>, separator: char) -> Option<int> {
    match exact_at(index, key, 0) {
        Some(i) => Some(i),
        None => if prefixed_count(index, key.push(separator)) == 1 {
            Some(choose|j: int| 0 <= j < index.len() && starts(#[trigger] index[j].0@, key.push(separator)))
        } else {
            None
        },
    }
}

proof fn lemma_prefixed_count_witness<V>(index: Seq<(String, V)>, p: Seq<char>)
    requires
        prefixed_count(index, p) > 0,
    ensures
        exists|j: int| 0 <= j < index.len() && starts(#[trigger] index[j].0@, p),
    decreases index.len(),
{
    if starts(index.last().0@, p) {
        assert(starts(index[index.len() - 1].0@, p));
    } else {
        lemma_prefixed_count_witness(index.drop_last(), p);
        let j = choose|j: int| 0 <= j < index.drop_last().len() && starts(#[trigger] index.drop_last()[j].0@, p);
        assert(index.drop_last()[j] == index[j]);
    }
}

proof fn lemma_prefixed_count_unique<V>(index: Seq<(String, V)>, p: Seq<char>, a: int, b: int)
    requires
        prefixed_count(index, p) == 1,
        0 <= a < index.len(),
        0 <= b < index.len(),
        starts(index[a].0@, p),
        starts(index[b].0@, p),
    ensures
        a == b,
    decreases index.len(),
{
    let n = index.len() - 1;
    lemma_prefixed_count_le(index.drop_last(), p);
    if a < n && b < n {
        assert(index.drop_last()[a] == index[a]);
        assert(index.drop_last()[b] == index[b]);
        if starts(index.last().0@, p) {
            lemma_prefixed_count_pos(index.drop_last(), p, a);
        } else {
            lemma_prefixed_count_unique(index.drop_last(), p, a, b);
        }
    } else if a < n {
        assert(index.drop_last()[a] == index[a]);
        lemma_prefixed_count_pos(index.drop_last(), p, a);
    } else if b < n {
        assert(index.drop_last()[b] == index[b]);
        lemma_prefixed_count_pos(index.drop_last(), p, b);
    }
}

proof fn lemma_prefixed_count_pos<V>(index: Seq<(String, V)>, p: Seq<char>, a: int)
    requires
        0 <= a < index.len(),
        starts(index[a].0@, p),
    ensures
        prefixed_count(index, p) >= 1,
    decreases index.len(),
{
    if a < index.len() - 1 {
        assert(index.drop_last()[a] == index[a]);
        lemma_prefixed_count_pos(index.drop_last(), p, a);
    }
}

proof fn lemma_prefixed_count_le<V>(index: Seq<(String, V)>, p: Seq<char>)
    ensures
        prefixed_count(index, p) <= index.len(),
    decreases index.len(),
{
    if index.len() > 0 {
        lemma_prefixed_count_le(index.drop_last(), p);
    }
}

fn position_of_exact<V>(index: &[(String, V)], key: &[char]) -> (r: Option<usize>)
    ensures
        match r {
            Some(i) => exact_at(index@, key@, 0) == Some(i as int) && i < index@.len(),
            None => exact_at(index@, key@, 0) is None,
        },
{
    let mut i: usize = 0;
    while i < index.len()
        invariant
            i <= index@.len(),
            exact_at(index@, key@, 0) == exact_at(index@, key@, i as int),
        decreases index@.len() - i,
    {
        let k = chars_of(index[i].0.as_str());
        if same(k.as_slice(), key) {
            return Some(i);
        }
        i = i + 1;
    }
    None
}

/// Looks `key` up in an index whose keys are distinct: the value keyed
/// exactly `key`, else the value of the one key that continues `key` with
/// `separator` (so `ogn-007` finds `ogn-007-298` but `ogn-00` finds
/// nothing); `None` when there is none or more than one.
pub fn unique_prefix<'a, V>(index: &'a [(String, V)], key: &str, separator: char) -> (r: Option<&'a V>)
    ensures
        match prefix_hit(index@, key@, separator) {
            Some(i) => 0 <= i < index@.len() && r == Some(&index@[i].1),
            None => r is None,
        },
{
    let k = chars_of(key);
    match position_of_exact(index, k.as_slice()) {
        Some(i) => {
            return Some(&index[i].1);
        },
        None => {},
    }
    let mut p = k;
    p.push(separator);
    assert(p@ == key@.push(separator));
    let mut found: Option<usize> = None;
    let mut count: usize = 0;
    let mut i: usize = 0;
    while i < index.len()
        invariant
            i <= index@.len(),
            p@ == key@.push(separator),
            count == prefixed_count(index@.take(i as int), p@),
            count <= i,
            count == 0 <==> found is None,
            found matches Some(j) ==> j < i && starts(index@[j as int].0@, p@),
        decreases index@.len() - i,
    {
        let candidate = chars_of(index[i].0.as_str());
        assert(index@.take(i as int + 1).drop_last() =~= index@.take(i as int));
        if starts_with(candidate.as_slice(), p.as_slice()) {
            if count == 0 {
                found = Some(i);
            }
            count = count + 1;
        }
        i = i + 1;
    }
    assert(index@.take(i as int) =~= index@);
    if count == 1 {
        match found {
            Some(j) => {
                proof {
                    let c = choose|c: int| 0 <= c < index@.len() && starts(#[trigger] index@[c].0@, key@.push(separator));
                    lemma_prefixed_count_witness(index@, key@.push(separator));
                    lemma_prefixed_count_unique(index@, key@.push(separator), c, j as int);
                }
                Some(&index[j].1)
            },
            None => None,
        }
    } else {
        None
    }
}

/// Cards found by name, case, punctuation and spacing aside, or by a
/// unique word-boundary prefix of the name.
pub struct NameIndex<C> {
    cards: Vec<C>,
    by_normalized_name: Vec<(String, usize)>,
    names: Ghost<Seq<Seq<char>>>,
}

/// Whether `name`, asked for the name of `card`, may answer `text`.
pub open spec fn name_gave<C, F: Fn(&C) -> &str>(name: F, card: C, text: Seq<char>) -> bool {
    exists|s: &str| #[trigger] call_ensures(name, (&card,), s) && s@ == text
}

/// Whether `keys` index the cards named `names` by normalized name: every
/// key is the normalized name of the card it points at and of no card
/// before it, and every card's normalized name is a key.
pub open spec fn first_named(names: Seq<Seq<char>>, keys: Seq<(String, usize)>) -> bool {
    &&& forall|k: int| 0 <= k < keys.len() ==> (#[trigger] keys[k]).1 < names.len() && keys[k].0@ == normalized(names[keys[k].1 as int])
    &&& forall|k: int, j: int| 0 <= k < keys.len() && 0 <= j < (#[trigger] keys[k]).1 ==> normalized(#[trigger] names[j]) != keys[k].0@
    &&& forall|i: int| 0 <= i < names.len() ==> #[trigger] exact_at(keys, normalized(names[i]), 0) is Some
}

impl<C> NameIndex<C> {
    /// Whether the keys are the normalized names, each naming the first
    /// card that carries it.
    pub closed spec fn wf(&self) -> bool {
        &&& self.names@.len() == self.cards@.len()
        &&& first_named(self.names@, self.by_normalized_name@)
        &&& forall|i: int| 0 <= i < self.by_normalized_name@.len() ==> (#[trigger] self.by_normalized_name@[i]).1 < self.cards@.len()
        &&& forall|i: int, j: int| 0 <= i < j < self.by_normalized_name@.len() ==> (#[trigger] self.by_normalized_name@[i]).0@ != (#[trigger] self.by_normalized_name@[j]).0@
    }

    pub closed spec fn keys(&self) -> Seq<(String, usize)> {
        self.by_normalized_name@
    }

    pub closed spec fn card_seq(&self) -> Seq<C> {
        self.cards@
    }

    /// The name each card was indexed under.
    pub closed spec fn names(&self) -> Seq<Seq<char>> {
        self.names@
    }

    /// Indexes `cards` by the normalized name `name` gives each; of cards
    /// sharing a normalized name the first is found.
    #[verifier::rlimit(60)]
    pub fn new(cards: Vec<C>, name: impl Fn(&C) -> &str) -> (r: Self)
        requires
            forall|c: &C| #[trigger] name.requires((c,)),
        ensures
            r.wf(),
            r.card_seq() == cards@,
            r.names().len() == cards@.len(),
            forall|i: int| 0 <= i < cards@.len() ==> #[trigger] name_gave(name, cards@[i], r.names()[i]),
    {
        let mut read: Vec<Vec<char>> = Vec::new();
        let ghost mut names: Seq<Seq<char>> = Seq::empty();
        let ghost mut given: Seq<&str> = Seq::empty();
        let mut i: usize = 0;
        while i < cards.len()
            invariant
                i <= cards@.len(),
                names.len() == i,
                given.len() == i,
                read@.len() == i,
                forall|x: int| 0 <= x < i ==> #[trigger] call_ensures(name, (&cards@[x],), given[x]) && given[x]@ == names[x],
                forall|x: int| 0 <= x < i ==> (#[trigger] read@[x])@ == normalized(names[x]),
                forall|c: &C| #[trigger] name.requires((c,)),
            decreases cards@.len() - i,
        {
            let n = name(&cards[i]);
            let ghost old_names = names;
            let ghost old_given = given;
            proof {
                names = names.push(n@);
                given = given.push(n);
                assert forall|x: int| 0 <= x < i + 1 implies #[trigger] call_ensures(name, (&cards@[x],), given[x]) && given[x]@ == names[x] by {
                    if x < i {
                        assert(names[x] == old_names[x]);
                        assert(given[x] == old_given[x]);
                    }
                }
            }
            read.push(normalize_chars(chars_of(n).as_slice()));
            i = i + 1;
        }
        let mut keys: Vec<(String, usize)> = Vec::new();
        let mut i: usize = 0;
        while i < read.len()
            invariant
                i <= read@.len(),
                read@.len() == names.len(),
                names.len() <= usize::MAX,
                forall|x: int| 0 <= x < read@.len() ==> (#[trigger] read@[x])@ == normalized(names[x]),
                forall|x: int| 0 <= x < keys@.len() ==> (#[trigger] keys@[x]).1 < i,
                forall|x: int, y: int| 0 <= x < y < keys@.len() ==> (#[trigger] keys@[x]).0@ != (#[trigger] keys@[y]).0@,
                first_named(names.take(i as int), keys@),
            decreases read@.len() - i,
        {
            let key = &read[i];
            let ghost before = names.take(i as int);
            assert(names.take(i as int + 1) =~= before.push(names[i as int]));
            match position_of_exact(keys.as_slice(), key.as_slice()) {
                Some(k) => {
                    proof {
                        lemma_exact_at_hit(keys@, key@, 0);
                        lemma_first_named_seen(before, keys@, names[i as int], k as int);
                    }
                },
                None => {
                    proof {
                        assert forall|x: int| 0 <= x < keys@.len() implies (#[trigger] keys@[x]).0@ != key@ by {
                            if keys@[x].0@ == key@ {
                                lemma_exact_at_finds(keys@, key@, 0, x);
                            }
                        }
                    }
                    let text = crate::text::string_of(key.as_slice());
                    proof {
                        lemma_first_named_new(before, keys@, names[i as int], text);
                    }
                    keys.push((text, i));
                },
            }
            i = i + 1;
        }
        assert(names.take(names.len() as int) =~= names);
        let ghost cs = cards@;
        let r = NameIndex { cards, by_normalized_name: keys, names: Ghost(names) };
        assert(r.names() == names);
        assert forall|x: int| 0 <= x < cs.len() implies #[trigger] name_gave(name, cs[x], r.names()[x]) by {
            assert(call_ensures(name, (&cs[x],), given[x]));
        }
        r
    }

    /// The cards, in the order given.
    pub fn cards(&self) -> (r: &[C])
        ensures
            r@ == self.card_seq(),
    {
        self.cards.as_slice()
    }

    pub fn len(&self) -> (r: usize)
        ensures
            r == self.card_seq().len(),
    {
        self.cards.len()
    }

    pub fn is_empty(&self) -> (r: bool)
        ensures
            r == (self.card_seq().len() == 0),
    {
        self.cards.len() == 0
    }

    /// The card whose normalized name is the normalized `name`, else the
    /// one card whose normalized name continues it at a word boundary.
    pub fn find(&self, name: &str) -> (r: Option<&C>)
        requires
            self.wf(),
        ensures
            match prefix_hit(self.keys(), normalized(name@), ' ') {
                Some(i) => r == Some(&self.card_seq()[self.keys()[i].1 as int]),
                None => r is None,
            },
    {
        let key = normalize_chars(chars_of(name).as_slice());
        let key_text = crate::text::string_of(key.as_slice());
        match unique_prefix(self.by_normalized_name.as_slice(), key_text.as_str(), ' ') {
            Some(index) => {
                let index = *index;
                Some(&self.cards[index])
            },
            None => None,
        }
    }
}

impl<C> NameIndex<C> {
    /// A name that is exactly the normalized name of some card reaches the
    /// first card that carries it: of cards sharing a normalized name, the
    /// first is found.
    pub proof fn lemma_name_reaches_first(&self, key: Seq<char>, i: int)
        requires
            self.wf(),
            0 <= i < self.names().len(),
            normalized(self.names()[i]) == key,
            forall|j: int| 0 <= j < i ==> normalized(#[trigger] self.names()[j]) != key,
        ensures
            prefix_hit(self.keys(), key, ' ') matches Some(k) && self.keys()[k].1 == i,
    {
        let keys = self.keys();
        let names = self.names();
        assert(exact_at(keys, normalized(names[i]), 0) is Some);
        lemma_exact_at_hit(keys, key, 0);
        let k = exact_at(keys, key, 0)->Some_0;
        let at = keys[k].1 as int;
        if at < i {
            assert(normalized(names[at]) == key);
        } else if at > i {
            assert(normalized(names[i]) != keys[k].0@);
        }
    }
}

proof fn lemma_first_named_seen(names: Seq<Seq<char>>, keys: Seq<(String, usize)>, n: Seq<char>, k: int)
    requires
        first_named(names, keys),
        0 <= k < keys.len(),
        keys[k].0@ == normalized(n),
    ensures
        first_named(names.push(n), keys),
{
    let m = names.push(n);
    assert forall|q: int| 0 <= q < keys.len() implies (#[trigger] keys[q]).1 < m.len() && keys[q].0@ == normalized(m[keys[q].1 as int]) by {
        assert(m[keys[q].1 as int] == names[keys[q].1 as int]);
    }
    assert forall|q: int, j: int| 0 <= q < keys.len() && 0 <= j < (#[trigger] keys[q]).1 implies normalized(#[trigger] m[j]) != keys[q].0@ by {
        assert(m[j] == names[j]);
    }
    assert forall|x: int| 0 <= x < m.len() implies #[trigger] exact_at(keys, normalized(m[x]), 0) is Some by {
        if x == names.len() {
            lemma_exact_at_finds(keys, normalized(m[x]), 0, k);
        } else {
            assert(m[x] == names[x]);
        }
    }
}

proof fn lemma_first_named_new(names: Seq<Seq<char>>, keys: Seq<(String, usize)>, n: Seq<char>, text: String)
    requires
        first_named(names, keys),
        names.len() <= usize::MAX,
        forall|x: int| 0 <= x < keys.len() ==> (#[trigger] keys[x]).0@ != normalized(n),
        text@ == normalized(n),
    ensures
        first_named(names.push(n), keys.push((text, names.len() as usize))),
{
    let m = names.push(n);
    let ks = keys.push((text, names.len() as usize));
    assert forall|q: int| 0 <= q < ks.len() implies (#[trigger] ks[q]).1 < m.len() && ks[q].0@ == normalized(m[ks[q].1 as int]) by {
        if q < keys.len() {
            assert(ks[q] == keys[q]);
            assert(m[keys[q].1 as int] == names[keys[q].1 as int]);
        }
    }
    assert forall|q: int, j: int| 0 <= q < ks.len() && 0 <= j < (#[trigger] ks[q]).1 implies normalized(#[trigger] m[j]) != ks[q].0@ by {
        assert(m[j] == names[j]);
        if q < keys.len() {
            assert(ks[q] == keys[q]);
        } else {
            if normalized(names[j]) == normalized(n) {
                assert(exact_at(keys, normalized(names[j]), 0) is Some);
                lemma_exact_at_hit(keys, normalized(names[j]), 0);
            }
        }
    }
    assert forall|x: int| 0 <= x < m.len() implies #[trigger] exact_at(ks, normalized(m[x]), 0) is Some by {
        if x == names.len() {
            lemma_exact_at_finds(ks, normalized(m[x]), 0, keys.len() as int);
        } else {
            assert(m[x] == names[x]);
            assert(exact_at(keys, normalized(names[x]), 0) is Some);
            lemma_exact_at_hit(keys, normalized(names[x]), 0);
            let p = exact_at(keys, normalized(names[x]), 0)->Some_0;
            assert(ks[p] == keys[p]);
            lemma_exact_at_finds(ks, normalized(m[x]), 0, p);
        }
    }
}

proof fn lemma_exact_at_hit<V>(index: Seq<(String, V)>, key: Seq<char>, i: int)
    requires
        exact_at(index, key, i) is Some,
    ensures
        i <= exact_at(index, key, i)->Some_0 < index.len(),
        index[exact_at(index, key, i)->Some_0].0@ == key,
    decreases index.len() - i,
{
    if i >= 0 && i < index.len() && index[i].0@ != key {
        lemma_exact_at_hit(index, key, i + 1);
    }
}

proof fn lemma_exact_at_finds<V>(index: Seq<(String, V)>, key: Seq<char>, i: int, x: int)
    requires
        0 <= i <= x < index.len(),
        index[x].0@ == key,
    ensures
        exact_at(index, key, i) is Some,
    decreases x - i,
{
    if index[i].0@ != key {
        lemma_exact_at_finds(index, key, i + 1, x);
    }
}

/// A lookup that remembers every answer, keyed by the game's cache key, and
/// asks the lookup behind it only for keys it has not seen.
pub struct Cached<G: Game, L> {
    inner: L,
    hits: Vec<(String, Option<G::Card>)>,
}

impl<G: Game, L> Cached<G, L> {
    pub closed spec fn inner_spec(&self) -> L {
        self.inner
    }

    /// The keys answered so far.
    pub closed spec fn seen(&self) -> Seq<Seq<char>> {
        self.hits@.map_values(|h: (String, Option<G::Card>)| h.0@)
    }

    pub fn new(inner: L) -> (r: Self)
        ensures
            r.inner_spec() == inner,
            r.seen().len() == 0,
    {
        let r = Cached { inner, hits: Vec::new() };
        assert(r.seen() =~= Seq::<Seq<char>>::empty());
        r
    }

    /// The position of the answer remembered under `key`, if any.
    pub closed spec fn hit_at(&self, key: Seq<char>) -> Option<int> {
        exact_at(self.hits@, key, 0)
    }

    /// The answer remembered at position `i`.
    pub closed spec fn remembered(&self, i: int) -> Option<G::Card> {
        self.hits@[i].1
    }

    /// The lookup behind the cache.
    pub fn inner(&self) -> (r: &L)
        ensures
            *r == self.inner_spec(),
    {
        &self.inner
    }
}

impl<G: Game, L: CardLookup<G>> Cached<G, L> {
    /// How a call settles for the key `key`: a key answered before is
    /// answered the same (a copy) and nothing changes; any other key is
    /// asked of the lookup behind, and an answer is remembered under it.
    pub open spec fn settles(
        &self,
        key: Seq<char>,
        identifier: G::Identifier,
        r: Result<Option<G::Card>, LookupError>,
        after: Self,
    ) -> bool {
        match self.hit_at(key) {
            Some(i) => after == *self && (r matches Ok(v) && copied(self.remembered(i), v)),
            None => {
                &&& self.inner_spec().answers(identifier, r, after.inner_spec())
                &&& forall|j: int| 0 <= j < self.seen().len() ==> after.remembered(j) == self.remembered(j)
                &&& match r {
                    Ok(v) => after.seen() == self.seen().push(key) && copied(v, after.remembered(self.seen().len() as int)),
                    Err(_) => after.seen() == self.seen(),
                }
            },
        }
    }
}

/// Whether `b` is a copy of `a`.
pub open spec fn copied<C: Clone>(a: Option<C>, b: Option<C>) -> bool {
    match (a, b) {
        (None, None) => true,
        (Some(x), Some(y)) => cloned::<C>(x, y),
        _ => false,
    }
}

impl<G: Game, L: CardLookup<G>> CardLookup<G> for Cached<G, L> {
    /// Settles as `settles` says, under the key the game gives the
    /// identifier (when the game states its keys).
    open spec fn answers(&self, identifier: G::Identifier, r: Result<Option<G::Card>, LookupError>, after: Self) -> bool {
        exists|key: Seq<char>| (G::keyed() ==> key == G::key_of(identifier)) && #[trigger] self.settles(key, identifier, r, after)
    }

    /// A key seen before is answered from the cache and the lookup behind
    /// it is not asked; an answer (not a failure) is remembered.
    fn find(&mut self, identifier: &G::Identifier) -> (r: Result<Option<G::Card>, LookupError>)
        ensures
            old(self).seen().len() <= final(self).seen().len(),
            forall|i: int| 0 <= i < old(self).seen().len() ==> final(self).seen()[i] == old(self).seen()[i],
            final(self).seen().len() > old(self).seen().len() ==> r is Ok,
            r is Err ==> final(self).seen() == old(self).seen(),
    {
        let ghost start = *self;
        let key = G::cache_key(identifier);
        let k = chars_of(key.as_str());
        match position_of_exact(self.hits.as_slice(), k.as_slice()) {
            Some(i) => {
                let v = self.hits[i].1.clone();
                assert(start.settles(key@, *identifier, Ok(v), *self));
                return Ok(v);
            },
            None => {},
        }
        let result = self.inner.find(identifier);
        assert(start.inner_spec().answers(*identifier, result, self.inner_spec()));
        match result {
            Ok(found) => {
                let ghost before = self.seen();
                let ghost before_hits = self.hits@;
                let copy = found.clone();
                self.hits.push((key, copy));
                assert(self.seen() =~= before.push(key@));
                assert(forall|j: int| 0 <= j < before.len() ==> self.hits@[j] == before_hits[j]);
                assert(start.settles(key@, *identifier, Ok(found), *self));
                Ok(found)
            },
            Err(e) => {
                assert(start.settles(key@, *identifier, Err(e), *self));
                Err(e)
            },
        }
    }
}

} // verus!
