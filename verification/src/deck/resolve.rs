//! Resolution: every parsed entry looked up and placed, or reported with
//! the reason it was not, with a fuse that stops asking a failing lookup.
use vstd::prelude::*;
use crate::deck::catalog::{CardLookup, LookupError};
use crate::deck::{Game, ParsedDeck, ParsedEntry};
use crate::text::{chars_of, decimal, extend, push_decimal_usize, same, string_of};

verus! {

/// The reason given for an entry that no card matches.
pub const NO_MATCH: &'static str = "no card in the catalog matches";

/// After this many lookup failures in a row, no further entry is looked up.
pub const LOOKUP_FAILURE_FUSE: usize = 3usize;

/// An entry that did not resolve: how it was written and why.
#[derive(Debug, Clone, PartialEq, Eq)]
pub struct Unresolved {
    pub identifier: String,
    pub reason: String,
}

impl Unresolved {
    /// Whether the lookup failed, rather than finding no card.
    pub fn lookup_failed(&self) -> (r: bool)
        ensures
            r == (self.reason@ != NO_MATCH@),
    {
        let a = chars_of(self.reason.as_str());
        let b = chars_of(NO_MATCH);
        !same(a.as_slice(), b.as_slice())
    }
}

/// A resolved deck and the entries that did not resolve.
#[derive(Debug, Clone, PartialEq, Eq)]
pub struct Resolution<G: Game> {
    pub deck: G::Deck,
    pub unresolved: Vec<Unresolved>,
}

/// The position of the first entry whose lookup failed.
pub open spec fn first_failed(u: Seq<Unresolved>, i: int) -> Option<int>
    decreases u.len() - i,
{
    if i < 0 || i >= u.len() {
        None
    } else if u[i].reason@ != NO_MATCH@ {
        Some(i)
    } else {
        first_failed(u, i + 1)
    }
}

impl<G: Game> Resolution<G> {
    /// The first entry whose lookup failed, if any.
    pub fn first_failure(&self) -> (r: Option<&Unresolved>)
        ensures
            match first_failed(self.unresolved@, 0) {
                Some(i) => r == Some(&self.unresolved@[i]),
                None => r is None,
            },
    {
        let mut i: usize = 0;
        while i < self.unresolved.len()
            invariant
                i <= self.unresolved@.len(),
                first_failed(self.unresolved@, 0) == first_failed(self.unresolved@, i as int),
            decreases self.unresolved@.len() - i,
        {
            if self.unresolved[i].lookup_failed() {
                return Some(&self.unresolved[i]);
            }
            i = i + 1;
        }
        None
    }
}

/// What one lookup said.
pub enum Answer {
    Found,
    Missing,
    /// The lookup failed with this message.
    Failed(Seq<char>),
}

/// The reason given for an entry skipped once `failures` failures in a row
/// ended with the message `last`.
pub open spec fn fuse_reason(failures: nat, last: Seq<char>) -> Seq<char> {
    "not looked up: "@ + decimal(failures) + " lookups in a row failed, the last with: "@ + last
}

/// Resolution so far, for entries that met the given events (`None`: not
/// looked up): the reasons reported, and the failures in a row.
pub open spec fn fold_events(events: Seq<Option<Answer>>) -> (Seq<Seq<char>>, Seq<Seq<char>>)
    decreases events.len(),
{
    if events.len() == 0 {
        (Seq::empty(), Seq::empty())
    } else {
        let (reasons, failures) = fold_events(events.drop_last());
        match events.last() {
            None => (reasons.push(fuse_reason(failures.len(), failures[LOOKUP_FAILURE_FUSE - 1])), failures),
            Some(Answer::Found) => (reasons, Seq::empty()),
            Some(Answer::Missing) => (reasons.push(NO_MATCH@), Seq::empty()),
            Some(Answer::Failed(m)) => (reasons.push(m), failures.push(m)),
        }
    }
}

/// An entry is skipped exactly when the failures in a row before it reach
/// the fuse.
pub open spec fn fuse_respected(events: Seq<Option<Answer>>) -> bool {
    forall|i: int| 0 <= i < events.len() ==> ((#[trigger] events[i]) is None
        <==> fold_events(events.take(i)).1.len() >= LOOKUP_FAILURE_FUSE)
}

/// Once the fuse has blown, the failures in a row stay at the fuse.
pub proof fn lemma_fuse_holds(events: Seq<Option<Answer>>)
    requires
        fuse_respected(events),
    ensures
        fold_events(events).1.len() <= LOOKUP_FAILURE_FUSE,
    decreases events.len(),
{
    if events.len() > 0 {
        let prefix = events.drop_last();
        assert forall|i: int| 0 <= i < prefix.len() implies ((#[trigger] prefix[i]) is None
            <==> fold_events(prefix.take(i)).1.len() >= LOOKUP_FAILURE_FUSE) by {
            assert(prefix.take(i) =~= events.take(i));
            assert(prefix[i] == events[i]);
        }
        lemma_fuse_holds(prefix);
        assert(events.take(events.len() - 1) =~= prefix);
        assert(events[events.len() - 1] == events.last());
    }
}

fn fuse_message(failures: &Vec<LookupError>) -> (r: String)
    requires
        failures@.len() >= LOOKUP_FAILURE_FUSE,
    ensures
        r@ == fuse_reason(failures@.len() as nat, "card lookup failed: "@ + failures@[LOOKUP_FAILURE_FUSE - 1].0@),
{
    let mut out = chars_of("not looked up: ");
    push_decimal_usize(&mut out, failures.len());
    extend(&mut out, chars_of(" lookups in a row failed, the last with: ").as_slice());
    let last = failures[LOOKUP_FAILURE_FUSE - 1].message();
    extend(&mut out, chars_of(last.as_str()).as_slice());
    string_of(out.as_slice())
}

/// The messages of a run of lookup failures.
pub open spec fn messages(failures: Seq<LookupError>) -> Seq<Seq<char>> {
    failures.map_values(|e: LookupError| "card lookup failed: "@ + e.0@)
}

/// What one entry's lookup gave, as an event of the fold.
pub open spec fn event_of<C>(a: Option<Result<Option<C>, LookupError>>) -> Option<Answer> {
    match a {
        None => None,
        Some(Ok(Some(_))) => Some(Answer::Found),
        Some(Ok(None)) => Some(Answer::Missing),
        Some(Err(e)) => Some(Answer::Failed("card lookup failed: "@ + e.0@)),
    }
}

/// The events of a run, one per entry.
pub open spec fn events_of<C>(results: Seq<Option<Result<Option<C>, LookupError>>>) -> Seq<Option<Answer>> {
    results.map_values(|a: Option<Result<Option<C>, LookupError>>| event_of(a))
}

/// The positions of the entries that found no card, in order.
pub open spec fn missed<C>(results: Seq<Option<Result<Option<C>, LookupError>>>) -> Seq<int>
    decreases results.len(),
{
    if results.len() == 0 {
        Seq::empty()
    } else if results.last() matches Some(Ok(Some(_))) {
        missed(results.drop_last())
    } else {
        missed(results.drop_last()).push(results.len() - 1)
    }
}

/// One entry's step: not asked (lookup and deck unchanged), or asked, with
/// the answer the lookup promises, and a card found placed in the deck.
pub open spec fn step<G: Game, L: CardLookup<G>>(
    entry: ParsedEntry<G>,
    before: L,
    answer: Option<Result<Option<G::Card>, LookupError>>,
    after: L,
    deck_before: G::Deck,
    deck_after: G::Deck,
) -> bool {
    match answer {
        None => after == before && deck_after == deck_before,
        Some(a) => before.answers(entry.identifier, a, after) && match a {
            Ok(Some(card)) => G::places(deck_before, entry.section, card, entry.count, deck_after),
            _ => deck_after == deck_before,
        },
    }
}

/// A run over the first entries: the lookup's states, what each entry's
/// lookup gave (`None`: not asked, the fuse had blown), and the deck before
/// and after each entry, starting from the game's empty deck.
pub open spec fn run<G: Game, L: CardLookup<G>>(
    entries: Seq<ParsedEntry<G>>,
    states: Seq<L>,
    results: Seq<Option<Result<Option<G::Card>, LookupError>>>,
    decks: Seq<G::Deck>,
) -> bool {
    &&& results.len() <= entries.len()
    &&& states.len() == results.len() + 1
    &&& decks.len() == results.len() + 1
    &&& call_ensures(G::Deck::default, (), decks[0])
    &&& fuse_respected(events_of(results))
    &&& forall|i: int| 0 <= i < results.len() ==> #[trigger] step(entries[i], states[i], results[i], states[i + 1], decks[i], decks[i + 1])
}

/// What a resolution reports of a run: the deck after the last entry, and
/// each entry that found no card, in order, under its description, with the
/// reason the fold gives.
pub open spec fn reported<G: Game>(
    entries: Seq<ParsedEntry<G>>,
    results: Seq<Option<Result<Option<G::Card>, LookupError>>>,
    decks: Seq<G::Deck>,
    resolution: Resolution<G>,
) -> bool {
    let m = missed(results);
    &&& resolution.deck == decks.last()
    &&& resolution.unresolved@.len() == m.len()
    &&& forall|k: int| 0 <= k < m.len() ==> call_ensures(G::describe, (&entries[#[trigger] m[k]].identifier,), resolution.unresolved@[k].identifier)
    &&& fold_events(events_of(results)).0 == resolution.unresolved@.map_values(|u: Unresolved| u.reason@)
}

/// Resolving `entries` may take the lookup from `before` to `after` and
/// give `resolution`: some run over every entry, whose answers the lookup
/// promises, explains it.
pub open spec fn resolves<G: Game, L: CardLookup<G>>(
    entries: Seq<ParsedEntry<G>>,
    before: L,
    after: L,
    resolution: Resolution<G>,
) -> bool {
    exists|states: Seq<L>, results: Seq<Option<Result<Option<G::Card>, LookupError>>>, decks: Seq<G::Deck>| {
        &&& #[trigger] run(entries, states, results, decks)
        &&& results.len() == entries.len()
        &&& states[0] == before
        &&& states.last() == after
        &&& #[trigger] reported(entries, results, decks, resolution)
    }
}

proof fn lemma_missed_push<C>(results: Seq<Option<Result<Option<C>, LookupError>>>, a: Option<Result<Option<C>, LookupError>>)
    ensures
        missed(results.push(a)) == if a matches Some(Ok(Some(_))) {
            missed(results)
        } else {
            missed(results).push(results.len() as int)
        },
{
    assert(results.push(a).drop_last() =~= results);
}

/// Looks every entry up and places each card found. An entry that no card
/// matches is reported with `NO_MATCH`, one whose lookup failed with the
/// failure; after `LOOKUP_FAILURE_FUSE` failures in a row the remaining
/// entries are not looked up but reported with the last failure, until a
/// lookup answers again. What each lookup answers rests on the lookup: the
/// contract states the run for every answer the lookup promises.
pub fn resolve<G: Game, L: CardLookup<G>>(
    parsed: &ParsedDeck<G>,
    cards: &mut L,
) -> (r: Result<Resolution<G>, LookupError>)
    ensures
        r matches Ok(res) && resolves(parsed.entries@, *old(cards), *final(cards), res),
{
    let mut deck: G::Deck = G::Deck::default();
    let mut unresolved: Vec<Unresolved> = Vec::new();
    let mut failures: Vec<LookupError> = Vec::new();
    let ghost entries = parsed.entries@;
    let ghost mut states: Seq<L> = seq![*cards];
    let ghost mut results: Seq<Option<Result<Option<G::Card>, LookupError>>> = Seq::empty();
    let ghost mut decks: Seq<G::Deck> = seq![deck];
    let mut i: usize = 0;
    proof {
        assert(events_of(results) =~= Seq::<Option<Answer>>::empty());
    }
    while i < parsed.entries.len()
        invariant
            entries == parsed.entries@,
            i <= entries.len(),
            results.len() == i,
            run(entries, states, results, decks),
            states[0] == *old(cards),
            states.last() == *cards,
            decks.last() == deck,
            unresolved@.len() == missed(results).len(),
            forall|k: int| 0 <= k < missed(results).len() ==> call_ensures(G::describe, (&entries[#[trigger] missed(results)[k]].identifier,), unresolved@[k].identifier),
            fold_events(events_of(results)).0 == unresolved@.map_values(|u: Unresolved| u.reason@),
            fold_events(events_of(results)).1 == messages(failures@),
            failures@.len() <= LOOKUP_FAILURE_FUSE,
        decreases entries.len() - i,
    {
        let entry = &parsed.entries[i];
        let identifier = G::describe(&entry.identifier);
        let ghost before = events_of(results);
        let ghost old_results = results;
        let ghost old_unresolved = unresolved@;
        let ghost s0 = *cards;
        let ghost d0 = deck;
        let ghost a: Option<Result<Option<G::Card>, LookupError>>;
        if failures.len() >= LOOKUP_FAILURE_FUSE {
            let reason = fuse_message(&failures);
            unresolved.push(Unresolved { identifier, reason });
            proof {
                a = None;
                assert(messages(failures@)[LOOKUP_FAILURE_FUSE - 1] == "card lookup failed: "@ + failures@[LOOKUP_FAILURE_FUSE - 1].0@);
            }
        } else {
            let answer = cards.find(&entry.identifier);
            proof {
                a = Some(answer);
            }
            match answer {
                Ok(Some(card)) => {
                    failures.clear();
                    G::place(&mut deck, entry.section, card, entry.count);
                    proof {
                        assert(messages(failures@) =~= Seq::<Seq<char>>::empty());
                    }
                },
                Ok(None) => {
                    failures.clear();
                    unresolved.push(Unresolved { identifier, reason: NO_MATCH.to_owned() });
                    proof {
                        assert(messages(failures@) =~= Seq::<Seq<char>>::empty());
                    }
                },
                Err(error) => {
                    let reason = error.message();
                    unresolved.push(Unresolved { identifier, reason });
                    let ghost m = "card lookup failed: "@ + error.0@;
                    let ghost old_failures = failures@;
                    failures.push(error);
                    proof {
                        assert(messages(failures@) =~= messages(old_failures).push(m));
                    }
                },
            }
        }
        proof {
            results = results.push(a);
            states = states.push(*cards);
            decks = decks.push(deck);
            let events = events_of(results);
            assert(events =~= before.push(event_of(a)));
            assert(events.drop_last() =~= before);
            assert(step(entries[i as int], s0, a, *cards, d0, deck));
            assert forall|j: int| 0 <= j < results.len() implies #[trigger] step(
                entries[j],
                states[j],
                results[j],
                states[j + 1],
                decks[j],
                decks[j + 1],
            ) by {
                if j < i {
                    assert(results[j] == old_results[j]);
                }
            }
            assert forall|j: int| 0 <= j < events.len() implies ((#[trigger] events[j]) is None
                <==> fold_events(events.take(j)).1.len() >= LOOKUP_FAILURE_FUSE) by {
                if j < events.len() - 1 {
                    assert(events.take(j) =~= before.take(j));
                    assert(events[j] == before[j]);
                } else {
                    assert(events.take(j) =~= before);
                }
            }
            lemma_missed_push(old_results, a);
            assert(unresolved@.map_values(|u: Unresolved| u.reason@) =~= fold_events(events).0);
            assert forall|k: int| 0 <= k < missed(results).len() implies call_ensures(
                G::describe,
                (&entries[#[trigger] missed(results)[k]].identifier,),
                unresolved@[k].identifier,
            ) by {
                if k < missed(old_results).len() {
                    assert(unresolved@[k] == old_unresolved[k]);
                }
            }
        }
        i = i + 1;
    }
    let res = Resolution { deck, unresolved };
    proof {
        assert(run(entries, states, results, decks));
        assert(reported(entries, results, decks, res));
    }
    Ok(res)
}

} // verus!
