//! Deck queries: a link, a code or pasted text, read and resolved into a
//! deck, or refused with a status and a reason.
use vstd::prelude::*;
use crate::art::USER_AGENT;
use crate::deck::catalog::CardLookup;
use crate::deck::resolve::{first_failed, Unresolved};
use crate::riftbound::card_code::code_text;
use crate::riftbound::deck_code::{code_error_message, decode, decode_text, DeckCodeError, DecodedDeck};
use crate::riftbound::link::{classify, code_in_url, extract, extracted, page_title, site_label, site_of_url, title, url_code, Extracted, Site};
use crate::riftbound::resolve::{resolve, resolved_from, Resolution};
use crate::riftbound::resolved::DeckView;
use crate::riftbound::tcg_arena::{fault_message, url_import};
use crate::riftbound::{
    any_deck, any_error, any_ok, entries_view, any_succeeds, any_title, opt_text, champion_counted, champion_seen, code_listable, decoded_entries,
    parse_any_with_title, parse_deck, parse_error_message, parsed_from_decoded, source_ok, DeckSource, ParseError,
    ParsedDeck, Riftbound, Route,
};
use crate::deck::text_list::entries_read;
use crate::text::{chars_of, decimal, extend, starts, string_of, trim, trim_of};

verus! {

/// The user agent a deck page is fetched with.
pub const FETCH_USER_AGENT: &'static str = USER_AGENT;

/// The content a deck page fetch accepts: anything.
pub const FETCH_ACCEPT: &'static str = "*/*";

/// Why a link is refused before any fetch: its host is not a deck site.
pub const OFF_SITE: &'static str = "deck links are only fetched from piltoverarchive.com, riftdecks.com, riftmana.com, play.riftatlas.com";

/// Why a deck that resolved to nothing is refused when no lookup failed.
pub const NO_CARDS: &'static str = "no cards resolved; ingest the riftbound catalog with ingest-riftbound first";

/// Fetches a deck page.
pub trait Fetch: Sized {
    /// What a fetcher promises of a call: that it may answer `r` for `url`
    /// and be left as `after`. A fetcher that promises nothing keeps this
    /// default.
    open spec fn fetches(&self, url: Seq<char>, r: Result<String, String>, after: Self) -> bool {
        true
    }

    fn get(&mut self, url: &str) -> (r: Result<String, String>)
        ensures
            old(self).fetches(url@, r, *final(self)),
    ;
}

/// What a deck query asks for: the deck behind a link, a deck code, or a
/// pasted deck in any form.
#[derive(Debug, Clone, PartialEq, Eq)]
pub enum DeckQuery {
    Url(String),
    Code(String),
    Text(String),
}

/// A refused query: the status to answer with and the reason.
#[derive(Debug, Clone, PartialEq, Eq)]
pub struct Refusal {
    pub status: u16,
    pub message: String,
}

/// A query read and resolved, with where the deck came from.
#[derive(Debug, Clone, PartialEq, Eq)]
pub struct ResolvedQuery {
    pub resolution: Resolution,
    pub source_kind: &'static str,
    pub source_value: String,
    pub title: Option<String>,
}

/// The title as plain values.
pub open spec fn title_view(t: Option<String>) -> Option<Seq<char>> {
    match t {
        Some(s) => Some(s@),
        None => None,
    }
}

/// Whether a deck holds no card at all.
pub open spec fn deck_empty(d: DeckView) -> bool {
    d.0 is None && d.1 is None && d.2.len() == 0 && d.3.len() == 0 && d.4.len() == 0 && d.5.len() == 0
}

/// The reason a deck that resolved to nothing is refused with after a
/// lookup failed: the card and why.
pub open spec fn failed_message(u: Unresolved) -> Seq<char> {
    "no cards resolved; "@ + u.identifier@ + ": "@ + u.reason@
}

/// What a resolution settles a query to: the deck with where it came
/// from, or, when no card resolved, a refusal naming the first failed
/// lookup (502) or asking for the catalog (422).
pub open spec fn settled_as(
    resolution: Resolution,
    kind: Seq<char>,
    value: Seq<char>,
    title: Option<Seq<char>>,
    r: Result<ResolvedQuery, Refusal>,
) -> bool {
    if !deck_empty(resolution.deck@) {
        r matches Ok(q) && q.resolution == resolution && q.source_kind@ == kind && q.source_value@ == value
            && title_view(q.title) == title
    } else {
        match first_failed(resolution.unresolved@, 0) {
            Some(i) => r matches Err(x) && x.status == 502 && x.message@ == failed_message(
                resolution.unresolved@[i],
            ),
            None => r matches Err(x) && x.status == 422 && x.message@ == NO_CARDS@,
        }
    }
}

/// What holds of a query settled by some resolution: a deck that is not
/// empty with where it came from, or one of the two refusals.
pub open spec fn settled(r: Result<ResolvedQuery, Refusal>, kind: Seq<char>, value: Seq<char>, title: Option<Seq<char>>) -> bool {
    match r {
        Ok(q) => q.source_kind@ == kind && q.source_value@ == value && title_view(q.title) == title
            && !deck_empty(q.resolution.deck@),
        Err(x) => (x.status == 502 && starts(x.message@, "no cards resolved; "@)) || (x.status == 422
            && x.message@ == NO_CARDS@),
    }
}

fn refusal(status: u16, message: String) -> (r: Refusal)
    ensures
        r.status == status,
        r.message@ == message@,
{
    Refusal { status, message }
}

/// Settles a query by its resolution.
pub fn settle(
    resolution: Resolution,
    source_kind: &'static str,
    source_value: &str,
    title: Option<String>,
) -> (r: Result<ResolvedQuery, Refusal>)
    ensures
        settled_as(resolution, source_kind@, source_value@, title_view(title), r),
        settled(r, source_kind@, source_value@, title_view(title)),
{
    let deck = &resolution.deck;
    let empty = deck.legend.is_none() && deck.chosen_champion.is_none() && deck.main_deck.len() == 0
        && deck.runes.len() == 0 && deck.battlefields.len() == 0 && deck.sideboard.len() == 0;
    if empty {
        match resolution.first_failure() {
            Some(failure) => {
                let mut m = chars_of("no cards resolved; ");
                extend(&mut m, chars_of(failure.identifier.as_str()).as_slice());
                extend(&mut m, chars_of(": ").as_slice());
                extend(&mut m, chars_of(failure.reason.as_str()).as_slice());
                proof {
                    reveal_strlit("no cards resolved; ");
                    assert(m@.take(19) =~= "no cards resolved; "@);
                }
                return Err(refusal(502, string_of(m.as_slice())));
            },
            None => {
                return Err(refusal(422, string_of(chars_of(NO_CARDS).as_slice())));
            },
        }
    }
    let value = string_of(chars_of(source_value).as_slice());
    Ok(ResolvedQuery { resolution, source_kind, source_value: value, title })
}

/// What resolving the deck list `parsed` against the lookup, taking it
/// from `before` to `after`, and settling the query by the resolution
/// answers.
pub open spec fn answered<L: CardLookup<Riftbound>>(
    parsed: ParsedDeck,
    before: L,
    after: L,
    kind: Seq<char>,
    value: Seq<char>,
    title: Option<Seq<char>>,
    r: Result<ResolvedQuery, Refusal>,
) -> bool {
    exists|res: Resolution| #[trigger] resolved_from(parsed.entries@, before, after, res) && settled_as(res, kind, value, title, r)
}

/// Resolves a deck list and settles the query by it.
pub fn resolve_parsed<L: CardLookup<Riftbound>>(
    parsed: &ParsedDeck,
    cards: &mut L,
    source_kind: &'static str,
    source_value: &str,
    title: Option<String>,
) -> (r: Result<ResolvedQuery, Refusal>)
    ensures
        answered(*parsed, *old(cards), *final(cards), source_kind@, source_value@, title_view(title), r),
        settled(r, source_kind@, source_value@, title_view(title)),
{
    let resolution = match resolve(parsed, cards) {
        Ok(resolution) => resolution,
        Err(error) => {
            return Err(refusal(502, error.message()));
        },
    };
    let ghost res = resolution;
    let ghost t = title_view(title);
    let r = settle(resolution, source_kind, source_value, title);
    assert(resolved_from(parsed.entries@, *old(cards), *cards, res));
    assert(settled_as(res, source_kind@, source_value@, t, r));
    r
}

/// Whether the chosen champion of a decoded deck has a copy among its
/// main cards to list.
pub fn champion_listable(decoded: &DecodedDeck) -> (r: bool)
    ensures
        r == champion_counted(decoded.main@, decoded.champion),
{
    let mut seen = false;
    let mut i: usize = 0;
    while i < decoded.main.len()
        invariant
            i <= decoded.main@.len(),
            seen == champion_seen(decoded.main@.take(i as int), decoded.champion),
            forall|j: int| 0 <= j < i && decoded.champion == Some((#[trigger] decoded.main@[j]).code)
                && !champion_seen(decoded.main@.take(j), decoded.champion) ==> decoded.main@[j].count >= 1,
        decreases decoded.main@.len() - i,
    {
        let e = decoded.main[i];
        let hit = match decoded.champion {
            Some(c) => c == e.code,
            None => false,
        };
        assert(decoded.main@.take(i as int + 1) =~= decoded.main@.take(i as int).push(e));
        if hit && !seen && e.count == 0 {
            assert(!champion_counted(decoded.main@, decoded.champion));
            return false;
        }
        proof {
            if hit {
                assert(decoded.main@.take(i as int + 1)[i as int] == e);
                assert(champion_seen(decoded.main@.take(i as int + 1), decoded.champion));
            } else {
                if champion_seen(decoded.main@.take(i as int + 1), decoded.champion) {
                    let j = choose|j: int| 0 <= j < i + 1 && decoded.champion == Some(
                        (#[trigger] decoded.main@.take(i as int + 1)[j]).code,
                    );
                    assert(j < i);
                    assert(decoded.main@.take(i as int)[j] == decoded.main@.take(i as int + 1)[j]);
                }
            }
        }
        seen = seen || hit;
        i = i + 1;
    }
    true
}

/// Reads a deck code found on a fetched page. A code that names a chosen
/// champion with no copy among its main cards is refused: the champion's
/// count is 0.
pub fn page_code_deck(code: &str) -> (r: Result<ParsedDeck, ParseError>)
    ensures
        match decode_text(code@) {
            Err(f) => r matches Err(ParseError::Code(e)) && e.is_fault(f),
            Ok(d) => if champion_counted(d.0, d.2) {
                r matches Ok(p) && p.entries@ == decoded_entries(d.0, d.1, d.2)
            } else {
                r matches Err(ParseError::Code(DeckCodeError::BadCount(s, n))) && n == 0 && d.2 is Some
                    && s@ == code_text(d.2->Some_0)
            },
        },
{
    let decoded = match decode(code) {
        Ok(decoded) => decoded,
        Err(e) => {
            return Err(ParseError::Code(e));
        },
    };
    if !champion_listable(&decoded) {
        let champion = match decoded.champion {
            Some(c) => c,
            None => {
                return Err(ParseError::Code(DeckCodeError::Oversized));
            },
        };
        return Err(ParseError::Code(DeckCodeError::BadCount(champion.to_text(), 0)));
    }
    Ok(parsed_from_decoded(&decoded))
}

/// What a fetched deck page settles a link query to, the lookup taken
/// from `before` to `after`: a failed fetch is refused with its reason
/// (502); a page with no deck, or with a code that does not read, is
/// refused with the reason (422), and no card is looked up; else the deck
/// the page holds is resolved, with the page's title.
pub open spec fn page_settled<L: CardLookup<Riftbound>>(
    site: Site,
    url: Seq<char>,
    fetched: Result<String, String>,
    before: L,
    after: L,
    r: Result<ResolvedQuery, Refusal>,
) -> bool {
    match fetched {
        Err(e) => after == before && (r matches Err(x) && x.status == 502 && x.message@ == e@),
        Ok(body) => match extracted(site, body@) {
            None => after == before && (r matches Err(x) && x.status == 422 && x.message@ == "no deck found in the "@
                + site_label(site) + " page; paste the deck code or card list instead"@),
            Some(Ok(code)) => match decode_text(code) {
                Err(f) => after == before && (r matches Err(x) && x.status == 422 && exists|e: DeckCodeError| e.is_fault(f)
                    && x.message@ == #[trigger] code_error_message(e)),
                Ok(d) => if champion_counted(d.0, d.2) {
                    exists|p: ParsedDeck| p.entries@ == decoded_entries(d.0, d.1, d.2)
                        && #[trigger] answered(p, before, after, "url"@, url, page_title(body@), r)
                } else {
                    after == before && (r matches Err(x) && x.status == 422 && x.message@ == code_text(d.2->Some_0)
                        + " has count 0, expected at least 1"@)
                },
            },
            Some(Err(rows)) => exists|p: ParsedDeck| entries_view(p.entries@) == rows
                && #[trigger] answered(p, before, after, "url"@, url, page_title(body@), r),
        },
    }
}

/// Settles a link query by what fetching its page gave.
pub fn from_page<L: CardLookup<Riftbound>>(
    site: Site,
    url: &str,
    fetched: Result<String, String>,
    cards: &mut L,
) -> (r: Result<ResolvedQuery, Refusal>)
    ensures
        page_settled(site, url@, fetched, *old(cards), *final(cards), r),
{
    let body = match fetched {
        Ok(body) => body,
        Err(e) => {
            return Err(refusal(502, e));
        },
    };
    let found = match extract(site, body.as_str()) {
        Ok(found) => found,
        Err(e) => {
            return Err(refusal(422, e.message()));
        },
    };
    let t = title(body.as_str());
    let parsed = match found {
        Extracted::Code(code) => match page_code_deck(code.as_str()) {
            Ok(parsed) => parsed,
            Err(e) => {
                let m = e.message();
                proof {
                    match e {
                        ParseError::Code(x) => {
                            assert(code_error_message(x) == m@);
                            match x {
                                DeckCodeError::BadCount(s, n) => {
                                    reveal_strlit(" has count ");
                                    reveal_strlit(", expected at least 1");
                                    reveal_strlit(" has count 0, expected at least 1");
                                    if n == 0 {
                                        assert(decimal(0) =~= seq!['0']);
                                        assert(m@ =~= s@ + " has count 0, expected at least 1"@);
                                    }
                                },
                                _ => {},
                            }
                        },
                        _ => {},
                    }
                }
                return Err(refusal(422, m));
            },
        },
        Extracted::Deck(parsed) => parsed,
    };
    let ghost before = *cards;
    let ghost tv = title_view(t);
    let r = resolve_parsed(&parsed, cards, "url", url, t);
    assert(answered(parsed, before, *cards, "url"@, url@, tv, r));
    r
}

/// What a query needs: a deck code it reads without a fetch names a chosen
/// champion only with a copy of it among the main cards, and pasted text
/// meets what `parse_any` needs.
pub open spec fn query_ok(query: DeckQuery) -> bool {
    match query {
        DeckQuery::Url(u) => match url_code(u@) {
            Some(c) => code_listable(c),
            None => true,
        },
        DeckQuery::Code(c) => code_listable(c@),
        DeckQuery::Text(t) => any_ok(t@),
    }
}

/// Whether every deck a code decodes to can be listed, tested.
pub fn code_fits(code: &str) -> (r: bool)
    ensures
        r == code_listable(code@),
{
    match decode(code) {
        Ok(d) => champion_listable(&d),
        Err(_) => true,
    }
}

fn text_fits(text: &str) -> (r: bool)
    ensures
        r ==> any_ok(text@),
{
    let cs = chars_of(text);
    let trimmed = trim_of(cs.as_slice());
    let tokens = crate::text::words_of(trimmed.as_slice());
    if tokens.len() > 4294967295usize {
        return false;
    }
    if tokens.len() == 1 {
        let single = string_of(tokens[0].as_slice());
        assert(single@ == crate::text::words(trim(text@))[0]);
        let in_link = match code_in_url(single.as_str()) {
            Some(c) => code_fits(c.as_str()),
            None => true,
        };
        in_link && code_fits(single.as_str())
    } else {
        true
    }
}

/// Tests what `resolve_query_deck` needs of a query: when it answers yes,
/// the query meets `query_ok`. It answers no only for a deck code that
/// names a chosen champion with no copy among its main cards, or a text of
/// more words than a count holds.
pub fn query_fits(query: &DeckQuery) -> (r: bool)
    ensures
        r ==> query_ok(*query),
        match *query {
            DeckQuery::Url(u) => r == (url_code(u@) matches Some(c) ==> code_listable(c)),
            DeckQuery::Code(c) => r == code_listable(c@),
            DeckQuery::Text(_) => true,
        },
{
    match query {
        DeckQuery::Url(u) => match code_in_url(u.as_str()) {
            Some(c) => code_fits(c.as_str()),
            None => true,
        },
        DeckQuery::Code(c) => code_fits(c.as_str()),
        DeckQuery::Text(t) => text_fits(t.as_str()),
    }
}

/// Whether neither the fetcher nor the lookup was touched.
pub open spec fn unchanged<F, L>(fetch_before: F, fetch_after: F, cards_before: L, cards_after: L) -> bool {
    fetch_after == fetch_before && cards_after == cards_before
}

/// Reads and resolves a deck query. A link is refused unless it is to a
/// deck site (403); a TCG Arena link, or a link that carries a deck code,
/// is read without a fetch; any other link's page is fetched. A link, code
/// or text that does not read is refused with the reason (422).
pub fn resolve_query_deck<F: Fetch, L: CardLookup<Riftbound>>(
    query: &DeckQuery,
    fetch: &mut F,
    cards: &mut L,
) -> (r: Result<ResolvedQuery, Refusal>)
    requires
        query_ok(*query),
    ensures
        match *query {
            DeckQuery::Url(u) => match site_of_url(u@) {
                None => unchanged(*old(fetch), *final(fetch), *old(cards), *final(cards)) && (r matches Err(x)
                    && x.status == 403 && x.message@ == OFF_SITE@),
                Some(Site::TcgArena) => *final(fetch) == *old(fetch) && match url_import(u@) {
                    Err(f) => *final(cards) == *old(cards) && (r matches Err(x) && x.status == 422 && x.message@
                        == fault_message(f)),
                    Ok((lines, t)) => exists|p: ParsedDeck| entries_read::<Riftbound>(p.entries@, lines)
                        && #[trigger] answered(p, *old(cards), *final(cards), "url"@, u@, t, r),
                },
                Some(site) => match url_code(u@) {
                    Some(c) => *final(fetch) == *old(fetch) && match decode_text(c) {
                        Err(f) => *final(cards) == *old(cards) && (r matches Err(x) && x.status == 422 && exists|
                            e: DeckCodeError,
                        | e.is_fault(f) && x.message@ == #[trigger] code_error_message(e)),
                        Ok(d) => exists|p: ParsedDeck| p.entries@ == decoded_entries(d.0, d.1, d.2)
                            && #[trigger] answered(p, *old(cards), *final(cards), "url"@, u@, None, r),
                    },
                    None => exists|fetched: Result<String, String>| {
                        &&& #[trigger] old(fetch).fetches(u@, fetched, *final(fetch))
                        &&& page_settled(site, u@, fetched, *old(cards), *final(cards), r)
                    },
                },
            },
            DeckQuery::Code(c) => *final(fetch) == *old(fetch) && match decode_text(c@) {
                Err(f) => *final(cards) == *old(cards) && (r matches Err(x) && x.status == 422 && exists|
                    e: DeckCodeError,
                | e.is_fault(f) && x.message@ == #[trigger] code_error_message(e)),
                Ok(d) => exists|p: ParsedDeck| p.entries@ == decoded_entries(d.0, d.1, d.2)
                    && #[trigger] answered(p, *old(cards), *final(cards), "code"@, trim(c@), None, r),
            },
            DeckQuery::Text(t) => *final(fetch) == *old(fetch) && if any_succeeds(t@) {
                exists|p: ParsedDeck| any_deck(t@, p)
                    && #[trigger] answered(p, *old(cards), *final(cards), "text"@, t@, any_title(t@), r)
            } else {
                *final(cards) == *old(cards) && (r matches Err(x) && x.status == 422 && exists|e: ParseError|
                    any_error(t@, e) && x.message@ == #[trigger] parse_error_message(e))
            },
        },
{
    match query {
        DeckQuery::Url(url) => {
            let site = match classify(url.as_str()) {
                Some(site) => site,
                None => {
                    return Err(refusal(403, string_of(chars_of(OFF_SITE).as_slice())));
                },
            };
            match site {
                Site::TcgArena => {
                    return match crate::riftbound::tcg_arena::parse_url(url.as_str()) {
                        Ok(imported) => {
                            let ghost before = *cards;
                            let ghost t = title_view(imported.title);
                            let ghost p = imported.deck;
                            let r = resolve_parsed(&imported.deck, cards, "url", url.as_str(), imported.title);
                            assert(answered(p, before, *cards, "url"@, url@, t, r));
                            r
                        },
                        Err(e) => Err(refusal(422, e.message())),
                    };
                },
                _ => {},
            }
            match code_in_url(url.as_str()) {
                Some(code) => {
                    let parsed = match parse_deck(&DeckSource::Code(code)) {
                        Ok(parsed) => parsed,
                        Err(e) => {
                            let m = e.message();
                            proof {
                                match e {
                                    ParseError::Code(x) => {
                                        assert(code_error_message(x) == m@);
                                    },
                                    _ => {},
                                }
                            }
                            return Err(refusal(422, m));
                        },
                    };
                    let ghost before = *cards;
                    let r = resolve_parsed(&parsed, cards, "url", url.as_str(), None);
                    assert(answered(parsed, before, *cards, "url"@, url@, None, r));
                    return r;
                },
                None => {},
            }
            let fetched = fetch.get(url.as_str());
            let ghost got = fetched;
            let r = from_page(site, url.as_str(), fetched, cards);
            assert(old(fetch).fetches(url@, got, *fetch));
            r
        },
        DeckQuery::Code(code) => {
            let parsed = match parse_deck(&DeckSource::Code(code.clone())) {
                Ok(parsed) => parsed,
                Err(e) => {
                    let m = e.message();
                    proof {
                        match e {
                            ParseError::Code(x) => {
                                assert(code_error_message(x) == m@);
                            },
                            _ => {},
                        }
                    }
                    return Err(refusal(422, m));
                },
            };
            let value = string_of(trim_of(chars_of(code.as_str()).as_slice()).as_slice());
            let ghost before = *cards;
            let r = resolve_parsed(&parsed, cards, "code", value.as_str(), None);
            assert(answered(parsed, before, *cards, "code"@, trim(code@), None, r));
            r
        },
        DeckQuery::Text(text) => {
            let (parsed, t) = match parse_any_with_title(text.as_str()) {
                Ok(read) => read,
                Err(e) => {
                    let m = e.message();
                    assert(parse_error_message(e) == m@);
                    return Err(refusal(422, m));
                },
            };
            let ghost before = *cards;
            let ghost tv = title_view(t);
            let r = resolve_parsed(&parsed, cards, "text", text.as_str(), t);
            assert(answered(parsed, before, *cards, "text"@, text@, tv, r));
            r
        },
    }
}

} // verus!
