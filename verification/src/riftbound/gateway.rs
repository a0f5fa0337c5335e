//! Which deck sites a deck link may be followed to.
use vstd::prelude::*;
use crate::riftbound::link::host_text;
use crate::text::{chars_of, is, lower_all, lower_seq, slice, starts, starts_with_str, string_of};
use crate::riftbound::query::{DeckQuery, Refusal};

verus! {

/// The name the deck resolver registers under.
pub const RESOLVER_NAME: &'static str = "deck";

/// The deck sites links are followed to.
pub const DECK_SITE_ALLOWLIST: [&'static str; 4] = [
    "piltoverarchive.com",
    "riftdecks.com",
    "riftmana.com",
    "tcg-arena.fr",
];

/// Why a link to another host is refused.
pub const OFF_ALLOWLIST: &'static str = "deck links are only fetched from piltoverarchive.com, riftdecks.com, riftmana.com, tcg-arena.fr";

/// Why a query with none of its parameters is refused.
pub const NO_PARAMETER: &'static str = "resolve/deck needs a url, code or text parameter";

/// Whether a host is one of the deck sites links are followed to.
pub open spec fn deck_site(host: Seq<char>) -> bool {
    host == "piltoverarchive.com"@ || host == "riftdecks.com"@ || host == "riftmana.com"@ || host == "tcg-arena.fr"@
}

/// The host a deck link names, lower-cased, without a leading `www.`.
pub open spec fn deck_host(url: Seq<char>) -> Seq<char> {
    let host = lower_seq(host_text(url));
    if starts(host, "www."@) {
        host.skip(4)
    } else {
        host
    }
}

/// Whether a link's real host is one of the deck sites: neither a
/// lookalike domain nor a user-info trick passes.
pub fn deck_url_allowed(url: &str) -> (r: bool)
    ensures
        r == deck_site(deck_host(url@)),
{
    proof {
        reveal_strlit("www.");
    }
    let host = match crate::riftbound::link::host_of(url) {
        Some(h) => lower_all(chars_of(h.as_str()).as_slice()),
        None => Vec::new(),
    };
    assert(host@ =~= lower_seq(host_text(url@)));
    let host = if starts_with_str(host.as_slice(), "www.") {
        let rest = slice(host.as_slice(), 4, host.len());
        assert(rest@ =~= host@.skip(4));
        rest
    } else {
        host
    };
    let h = host.as_slice();
    is(h, "piltoverarchive.com") || is(h, "riftdecks.com") || is(h, "riftmana.com") || is(h, "tcg-arena.fr")
}

/// The deck query a resolve request's parameters ask for: the link, if
/// there is one and it is to a deck site (else 403), then the code, then
/// the text; none of them is refused (400).
pub fn query_of(url: Option<&str>, code: Option<&str>, text: Option<&str>) -> (r: Result<DeckQuery, Refusal>)
    ensures
        match url {
            Some(u) => if deck_site(deck_host(u@)) {
                r matches Ok(DeckQuery::Url(s)) && s@ == u@
            } else {
                r matches Err(x) && x.status == 403 && x.message@ == OFF_ALLOWLIST@
            },
            None => match code {
                Some(c) => r matches Ok(DeckQuery::Code(s)) && s@ == c@,
                None => match text {
                    Some(t) => r matches Ok(DeckQuery::Text(s)) && s@ == t@,
                    None => r matches Err(x) && x.status == 400 && x.message@ == NO_PARAMETER@,
                },
            },
        },
{
    match url {
        Some(u) => {
            if !deck_url_allowed(u) {
                return Err(Refusal { status: 403, message: string_of(chars_of(OFF_ALLOWLIST).as_slice()) });
            }
            return Ok(DeckQuery::Url(string_of(chars_of(u).as_slice())));
        },
        None => {},
    }
    match code {
        Some(c) => {
            return Ok(DeckQuery::Code(string_of(chars_of(c).as_slice())));
        },
        None => {},
    }
    match text {
        Some(t) => Ok(DeckQuery::Text(string_of(chars_of(t).as_slice()))),
        None => Err(Refusal { status: 400, message: string_of(chars_of(NO_PARAMETER).as_slice()) }),
    }
}

} // verus!
