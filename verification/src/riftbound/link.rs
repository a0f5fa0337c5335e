//! Deck-site links: which site a URL belongs to, the deck code a link
//! carries, and the deck a fetched page holds.
use vstd::prelude::*;
use crate::riftbound::deck_code::{decode, decode_text};
use crate::riftbound::{entries_view, Identifier, IdentifierView, ParsedDeck, ParsedEntry, Section};
use crate::text::{
    chars_of, extend, find, find_char, find_in, find_str, is, is_ascii_alnum, is_upper, lower_all,
    lower_seq, rsplit_once, parse_u32, parse_u32_of, pieces, pieces_of, rfind, rfind_in, slice, split_once,
    split_once_at, split_once_char, starts, starts_with_str, string_of, trim, trim_of, views,
    words, words_of, spaced, join_spaced, 
};

verus! {

pub const RIFT_ATLAS_HUB: &'static str = "https://play.riftatlas.com/?deckCode=";
pub const PILTOVER_DECKBUILDER: &'static str = "https://piltoverarchive.com/deckbuilder?code=";

/// The sites a deck link may come from.
#[derive(Debug, Clone, Copy, PartialEq, Eq, Structural)]
pub enum Site {
    PiltoverArchive,
    RiftDecks,
    RiftMana,
    RiftAtlas,
    TcgArena,
}

/// The hosts whose deck pages are fetched (a TCG Arena link is read
/// without a fetch).
pub const ALLOWED_HOSTS: [&'static str; 4] = [
    "piltoverarchive.com",
    "riftdecks.com",
    "riftmana.com",
    "play.riftatlas.com",
];

pub open spec fn site_label(s: Site) -> Seq<char> {
    match s {
        Site::PiltoverArchive => "piltoverarchive.com"@,
        Site::RiftDecks => "riftdecks.com"@,
        Site::RiftMana => "riftmana.com"@,
        Site::RiftAtlas => "play.riftatlas.com"@,
        Site::TcgArena => "tcg-arena.fr"@,
    }
}

impl Site {
    /// The site's host name.
    pub fn label(self) -> (r: &'static str)
        ensures
            r@ == site_label(self),
    {
        match self {
            Site::PiltoverArchive => "piltoverarchive.com",
            Site::RiftDecks => "riftdecks.com",
            Site::RiftMana => "riftmana.com",
            Site::RiftAtlas => "play.riftatlas.com",
            Site::TcgArena => "tcg-arena.fr",
        }
    }
}

fn joined(prefix: &str, code: &str) -> (r: String)
    ensures
        r@ == prefix@ + trim(code@),
{
    let mut out = chars_of(prefix);
    extend(&mut out, trim_of(chars_of(code).as_slice()).as_slice());
    string_of(out.as_slice())
}

/// The Rift Atlas link that opens a deck code.
pub fn riftatlas_url(code: &str) -> (r: String)
    ensures
        r@ == RIFT_ATLAS_HUB@ + trim(code@),
{
    joined(RIFT_ATLAS_HUB, code)
}

/// The Piltover Archive deck-builder link that opens a deck code.
pub fn piltover_url(code: &str) -> (r: String)
    ensures
        r@ == PILTOVER_DECKBUILDER@ + trim(code@),
{
    joined(PILTOVER_DECKBUILDER, code)
}

/// The characters of `s` before the first one `stop` picks, or all of `s`.
pub open spec fn upto(s: Seq<char>, i: int, stop: spec_fn(char) -> bool) -> Seq<char>
    decreases s.len() - i,
{
    if i < 0 || i >= s.len() {
        s
    } else if stop(s[i]) {
        s.take(i)
    } else {
        upto(s, i + 1, stop)
    }
}

pub open spec fn path_mark(c: char) -> bool {
    c == '/' || c == '?' || c == '#'
}

/// The host of a URL: after the scheme, before the path, query or
/// fragment, after any user info and before any port; `None` when empty.
pub open spec fn host_text(url: Seq<char>) -> Seq<char> {
    let rest = match split_once(url, "://"@) {
        Some((_, r)) => r,
        None => url,
    };
    let host = upto(rest, 0, |c: char| path_mark(c));
    let host = match rfind(host, seq!['@']) {
        Some(k) => host.skip(k + 1),
        None => host,
    };
    upto(host, 0, |c: char| c == ':')
}

fn upto_of(s: &[char], mode: u8) -> (r: Vec<char>)
    ensures
        r@ == upto(s@, 0, if mode == 0 { |c: char| path_mark(c) } else { |c: char| c == ':' }),
{
    let ghost stop = if mode == 0 { |c: char| path_mark(c) } else { |c: char| c == ':' };
    let mut i: usize = 0;
    while i < s.len()
        invariant
            i <= s@.len(),
            stop == (if mode == 0 { |c: char| path_mark(c) } else { |c: char| c == ':' }),
            upto(s@, 0, stop) == upto(s@, i as int, stop),
        decreases s@.len() - i,
    {
        let c = s[i];
        let hit = if mode == 0 { c == '/' || c == '?' || c == '#' } else { c == ':' };
        assert(hit == stop(c));
        if hit {
            let out = slice(s, 0, i);
            assert(out@ =~= s@.take(i as int));
            return out;
        }
        i = i + 1;
    }
    crate::text::copy(s)
}

fn host_chars(url: &[char]) -> (r: Vec<char>)
    ensures
        r@ == host_text(url@),
{
    proof {
        reveal_strlit("://");
    }
    let sep = chars_of("://");
    let rest = match split_once_at(url, sep.as_slice()) {
        Some((_, r)) => r,
        None => crate::text::copy(url),
    };
    let host = upto_of(rest.as_slice(), 0);
    let host = match crate::text::rfind_char(host.as_slice(), '@') {
        Some(k) => {
            proof {
                crate::text::lemma_rfind_upto_bounds(host@, seq!['@'], host@.len() - 1);
            }
            let hl = host.len();
            let h = slice(host.as_slice(), k + 1, hl);
            assert(h@ =~= host@.skip(k + 1));
            h
        },
        None => host,
    };
    upto_of(host.as_slice(), 1)
}

/// The host a URL names, if it names one.
pub fn host_of(url: &str) -> (r: Option<String>)
    ensures
        match r {
            Some(h) => h@ == host_text(url@) && h@.len() > 0,
            None => host_text(url@).len() == 0,
        },
{
    let h = host_chars(chars_of(url).as_slice());
    if h.len() == 0 {
        None
    } else {
        Some(string_of(h.as_slice()))
    }
}

/// The site a host (lower-cased, `www.` dropped) belongs to.
pub open spec fn site_of_host(host: Seq<char>) -> Option<Site> {
    let h = if starts(host, "www."@) { host.skip(4) } else { host };
    if h == "piltoverarchive.com"@ {
        Some(Site::PiltoverArchive)
    } else if h == "riftdecks.com"@ {
        Some(Site::RiftDecks)
    } else if h == "riftmana.com"@ {
        Some(Site::RiftMana)
    } else if h == "play.riftatlas.com"@ || h == "riftatlas.com"@ {
        Some(Site::RiftAtlas)
    } else if h == "tcg-arena.fr"@ {
        Some(Site::TcgArena)
    } else {
        None
    }
}

/// The site a URL belongs to, by its host alone.
pub open spec fn site_of_url(url: Seq<char>) -> Option<Site> {
    let h = host_text(url);
    if h.len() == 0 {
        None
    } else {
        site_of_host(lower_seq(h))
    }
}

/// Which deck site a URL belongs to, judged by its host alone.
pub fn classify(url: &str) -> (r: Option<Site>)
    ensures
        r == site_of_url(url@),
{
    proof {
        reveal_strlit("www.");
    }
    let h = host_chars(chars_of(url).as_slice());
    if h.len() == 0 {
        return None;
    }
    let lower = lower_all(h.as_slice());
    let host = if starts_with_str(lower.as_slice(), "www.") {
        let t = slice(lower.as_slice(), 4, lower.len());
        assert(t@ =~= lower@.skip(4));
        t
    } else {
        lower
    };
    let host = host.as_slice();
    if is(host, "piltoverarchive.com") {
        Some(Site::PiltoverArchive)
    } else if is(host, "riftdecks.com") {
        Some(Site::RiftDecks)
    } else if is(host, "riftmana.com") {
        Some(Site::RiftMana)
    } else if is(host, "play.riftatlas.com") || is(host, "riftatlas.com") {
        Some(Site::RiftAtlas)
    } else if is(host, "tcg-arena.fr") {
        Some(Site::TcgArena)
    } else {
        None
    }
}

/// `s` with every `p` (left to right, not overlapping) replaced by `r`.
pub open spec fn replaced(s: Seq<char>, p: Seq<char>, r: Seq<char>) -> Seq<char>
    decreases s.len(),
{
    if s.len() == 0 || p.len() == 0 {
        s
    } else if starts(s, p) {
        r + replaced(s.skip(p.len() as int), p, r)
    } else {
        seq![s[0]] + replaced(s.drop_first(), p, r)
    }
}

pub(crate) fn replaced_of(s: &[char], p: &str, r: &str) -> (out: Vec<char>)
    ensures
        out@ == replaced(s@, p@, r@),
{
    let pc = chars_of(p);
    let rc = chars_of(r);
    if pc.len() == 0 {
        return crate::text::copy(s);
    }
    let mut out: Vec<char> = Vec::new();
    assert(s@.skip(0) =~= s@);
    let mut i: usize = 0;
    while i < s.len()
        invariant
            i <= s@.len(),
            pc@.len() > 0,
            pc@ == p@,
            rc@ == r@,
            out@ + replaced(s@.skip(i as int), p@, r@) == replaced(s@, p@, r@),
        decreases s@.len() - i,
    {
        let ghost rest = s@.skip(i as int);
        if crate::text::occurs(s, pc.as_slice(), i) {
            assert(rest.take(p@.len() as int) =~= s@.subrange(i as int, i + p@.len()));
            assert(rest.skip(p@.len() as int) =~= s@.skip(i + p@.len()));
            extend(&mut out, rc.as_slice());
            i = i + pc.len();
        } else {
            proof {
                if starts(rest, p@) {
                    assert(rest.take(p@.len() as int) =~= s@.subrange(i as int, i + p@.len()));
                }
            }
            assert(rest.drop_first() =~= s@.skip(i + 1));
            out.push(s[i]);
            i = i + 1;
        }
        assert(out@ + replaced(s@.skip(i as int), p@, r@) =~= replaced(s@, p@, r@));
    }
    assert(s@.skip(i as int) =~= Seq::<char>::empty());
    assert(out@ =~= replaced(s@, p@, r@));
    out
}

/// The key a site's link keeps its deck code under.
pub open spec fn code_key(site: Site) -> Option<Seq<char>> {
    match site {
        Site::PiltoverArchive => Some("code"@),
        Site::RiftAtlas => Some("deckCode"@),
        _ => None,
    }
}

/// The first `key=value` pair of a query whose key is `key`: its value.
pub open spec fn first_value(pairs: Seq<Seq<char>>, key: Seq<char>, i: int) -> Option<Seq<char>>
    decreases pairs.len() - i,
{
    if i < 0 || i >= pairs.len() {
        None
    } else {
        match split_once(pairs[i], seq!['=']) {
            Some((k, v)) => if k == key {
                Some(v)
            } else {
                first_value(pairs, key, i + 1)
            },
            None => first_value(pairs, key, i + 1),
        }
    }
}

/// The deck code a site link carries in its query, percent-encoded `=`
/// restored, when it decodes.
pub open spec fn url_code(url: Seq<char>) -> Option<Seq<char>> {
    match site_of_url(url) {
        None => None,
        Some(site) => match split_once(url, seq!['?']) {
            None => None,
            Some((_, query)) => {
                let query = upto(query, 0, |c: char| c == '#');
                match code_key(site) {
                    None => None,
                    Some(key) => match first_value(pieces(query, '&'), key, 0) {
                        None => None,
                        Some(v) => {
                            let value = replaced(replaced(v, "%3D"@, "="@), "%3d"@, "="@);
                            if value.len() > 0 && decode_text(value) is Ok {
                                Some(value)
                            } else {
                                None
                            }
                        },
                    },
                }
            },
        },
    }
}

/// The deck code a Piltover Archive or Rift Atlas link carries, when it
/// holds one that decodes.
#[verifier::loop_isolation(false)]
pub fn code_in_url(url: &str) -> (r: Option<String>)
    ensures
        match url_code(url@) {
            Some(c) => r matches Some(s) && s@ == c,
            None => r is None,
        },
{
    let site = match classify(url) {
        Some(s) => s,
        None => {
            return None;
        },
    };
    let cs = chars_of(url);
    let query = match split_once_char(cs.as_slice(), '?') {
        Some((_, q)) => q,
        None => {
            return None;
        },
    };
    let query = hash_cut(query.as_slice());
    let key = match site {
        Site::PiltoverArchive => "code",
        Site::RiftAtlas => "deckCode",
        _ => {
            return None;
        },
    };
    let kc = chars_of(key);
    let pairs = pieces_of(query.as_slice(), '&');
    let ghost ps = pieces(query@, '&');
    let mut i: usize = 0;
    while i < pairs.len()
        invariant
            i <= pairs@.len(),
            views(pairs@) == ps,
            first_value(ps, kc@, 0) == first_value(ps, kc@, i as int),
        decreases pairs@.len() - i,
    {
        assert(pairs@[i as int]@ == ps[i as int]);
        match split_once_char(pairs[i].as_slice(), '=') {
            Some((k, v)) => {
                if crate::text::same(k.as_slice(), kc.as_slice()) {
                    let once = replaced_of(v.as_slice(), "%3D", "=");
                    let value = replaced_of(once.as_slice(), "%3d", "=");
                    if value.len() == 0 {
                        return None;
                    }
                    let text = string_of(value.as_slice());
                    return match decode(text.as_str()) {
                        Ok(_) => Some(text),
                        Err(_) => None,
                    };
                }
            },
            None => {},
        }
        i = i + 1;
    }
    None
}

fn hash_cut(s: &[char]) -> (r: Vec<char>)
    ensures
        r@ == upto(s@, 0, |c: char| c == '#'),
{
    let ghost stop = |c: char| c == '#';
    let mut i: usize = 0;
    while i < s.len()
        invariant
            i <= s@.len(),
            stop == (|c: char| c == '#'),
            upto(s@, 0, stop) == upto(s@, i as int, stop),
        decreases s@.len() - i,
    {
        if s[i] == '#' {
            let out = slice(s, 0, i);
            assert(out@ =~= s@.take(i as int));
            return out;
        }
        i = i + 1;
    }
    crate::text::copy(s)
}

/// What a fetched deck page held.
#[derive(Debug, Clone, PartialEq, Eq)]
pub enum Extracted {
    Code(String),
    Deck(ParsedDeck),
}

/// A page with no deck in it.
#[derive(Debug, Clone, PartialEq, Eq, Structural)]
pub struct ExtractError {
    pub site: Site,
}

impl ExtractError {
    /// The message a reader sees.
    pub fn message(&self) -> (r: String)
        ensures
            r@ == "no deck found in the "@ + site_label(self.site) + " page; paste the deck code or card list instead"@,
    {
        let mut out = chars_of("no deck found in the ");
        extend(&mut out, chars_of(self.site.label()).as_slice());
        extend(&mut out, chars_of(" page; paste the deck code or card list instead").as_slice());
        string_of(out.as_slice())
    }
}

/// A character of the deck-code alphabet.
pub open spec fn b32_char(c: char) -> bool {
    is_upper(c) || ('2' <= c && c <= '7')
}

/// The first run of 16 or more code characters, from position `i` on (a
/// run open since `start`, or none when `start` is negative), that decodes.
pub open spec fn scan(s: Seq<char>, i: int, start: int) -> Option<Seq<char>>
    decreases s.len() + 1 - i,
{
    if i < 0 || i > s.len() {
        None
    } else {
        let inside = i < s.len() && b32_char(s[i]);
        if start < 0 || start > i {
            if inside {
                scan(s, i + 1, i)
            } else {
                scan(s, i + 1, -1)
            }
        } else if inside {
            scan(s, i + 1, start)
        } else {
            let candidate = s.subrange(start, i);
            if i - start >= 16 && decode_text(candidate) is Ok {
                Some(candidate)
            } else {
                scan(s, i + 1, -1)
            }
        }
    }
}

/// The first run of 16 or more deck-code characters in a page that
/// decodes as a deck code.
#[verifier::loop_isolation(false)]
pub fn scan_for_code(body: &str) -> (r: Option<String>)
    ensures
        match scan(body@, 0, -1) {
            Some(c) => r matches Some(s) && s@ == c,
            None => r is None,
        },
{
    let s = chars_of(body);
    let n = s.len();
    let mut start: usize = 0;
    let mut open = false;
    let mut i: usize = 0;
    while i < n
        invariant
            i <= n,
            n == s@.len(),
            open ==> start < i,
            scan(s@, 0, -1) == scan(s@, i as int, if open { start as int } else { -1 }),
        decreases n - i,
    {
        let c = s[i];
        let inside = ('A' <= c && c <= 'Z') || ('2' <= c && c <= '7');
        assert(inside == b32_char(s@[i as int]));
        if !open {
            if inside {
                start = i;
                open = true;
            }
        } else if !inside {
            if i - start >= 16 {
                let candidate = slice(s.as_slice(), start, i);
                let text = string_of(candidate.as_slice());
                match decode(text.as_str()) {
                    Ok(_) => {
                        return Some(text);
                    },
                    Err(_) => {},
                }
            }
            open = false;
        }
        i = i + 1;
    }
    if open && n - start >= 16 {
        let candidate = slice(s.as_slice(), start, n);
        let text = string_of(candidate.as_slice());
        match decode(text.as_str()) {
            Ok(_) => {
                return Some(text);
            },
            Err(_) => {},
        }
    }
    assert(scan(s@, n as int + 1, -1) is None);
    None
}


/// `char::from_u32`: the character with scalar value `v`, when `v` is one
/// (below `0xD800`, or from `0xE000` to `0x10FFFF`), as its documentation
/// says.
#[verifier::external_body]
fn char_from_u32(v: u32) -> (r: Option<char>)
    ensures
        match r {
            Some(c) => scalar(v) && c as u32 == v && c == char_of(v),
            None => !scalar(v),
        },
{
    char::from_u32(v)
}

/// The character whose scalar value is `v`.
pub open spec fn char_of(v: u32) -> char {
    choose|c: char| #[trigger] code_point(c) == v
}

pub open spec fn code_point(c: char) -> u32 {
    c as u32
}

pub open spec fn scalar(v: u32) -> bool {
    v < 0xD800 || (0xE000 <= v && v <= 0x10FFFF)
}

pub open spec fn hex_value(c: char) -> int {
    if '0' <= c && c <= '9' {
        c as int - 48
    } else if 'a' <= c && c <= 'f' {
        c as int - 87
    } else if 'A' <= c && c <= 'F' {
        c as int - 55
    } else {
        -1
    }
}

pub open spec fn hex_digits_value(s: Seq<char>) -> int
    decreases s.len(),
{
    if s.len() == 0 {
        0
    } else {
        hex_digits_value(s.drop_last()) * 16 + hex_value(s.last())
    }
}

/// A run of hex digits.
pub open spec fn all_hex(s: Seq<char>) -> bool {
    forall|i: int| 0 <= i < s.len() ==> hex_value(#[trigger] s[i]) >= 0
}

/// The digits of a number with its optional `+` sign dropped.
pub open spec fn unsigned_body(s: Seq<char>) -> Seq<char> {
    if s.len() > 0 && s[0] == '+' {
        s.drop_first()
    } else {
        s
    }
}

/// `u32::from_str_radix(s, 16)`: an optional `+` and at least one hex
/// digit, in range.
pub open spec fn parse_hex(s: Seq<char>) -> Option<u32> {
    let body = unsigned_body(s);
    if body.len() > 0 && all_hex(body) && hex_digits_value(body) <= u32::MAX {
        Some(hex_digits_value(body) as u32)
    } else {
        None
    }
}

proof fn lemma_hex_grows(s: Seq<char>, i: int)
    requires
        0 <= i <= s.len(),
        forall|k: int| 0 <= k < s.len() ==> hex_value(#[trigger] s[k]) >= 0,
    ensures
        0 <= hex_digits_value(s.take(i)) <= hex_digits_value(s),
    decreases s.len() - i,
{
    if i < s.len() {
        lemma_hex_grows(s, i + 1);
        assert(s.take(i + 1).drop_last() =~= s.take(i));
        assert(s.take(i + 1).last() == s[i]);
    } else {
        assert(s.take(i) =~= s);
        lemma_hex_nonneg(s);
    }
}

proof fn lemma_hex_nonneg(s: Seq<char>)
    requires
        forall|k: int| 0 <= k < s.len() ==> hex_value(#[trigger] s[k]) >= 0,
    ensures
        hex_digits_value(s) >= 0,
    decreases s.len(),
{
    if s.len() > 0 {
        assert forall|k: int| 0 <= k < s.drop_last().len() implies hex_value(#[trigger] s.drop_last()[k]) >= 0 by {
            assert(s.drop_last()[k] == s[k]);
        }
        lemma_hex_nonneg(s.drop_last());
        assert(hex_value(s[s.len() - 1]) >= 0);
    }
}

#[verifier::loop_isolation(false)]
fn hex_u32(s: &[char]) -> (r: Option<u32>)
    ensures
        r == parse_hex(s@),
{
    let body = if s.len() > 0 && s[0] == '+' {
        let b = slice(s, 1, s.len());
        assert(b@ =~= s@.drop_first());
        b
    } else {
        crate::text::copy(s)
    };
    if body.len() == 0 {
        return None;
    }
    let mut i: usize = 0;
    while i < body.len()
        invariant
            i <= body@.len(),
            forall|k: int| 0 <= k < i ==> hex_value(#[trigger] body@[k]) >= 0,
        decreases body@.len() - i,
    {
        let c = body[i];
        if !(('0' <= c && c <= '9') || ('a' <= c && c <= 'f') || ('A' <= c && c <= 'F')) {
            assert(hex_value(body@[i as int]) < 0);
            assert(!(forall|k: int| 0 <= k < body@.len() ==> hex_value(#[trigger] body@[k]) >= 0));
            assert(body@ == unsigned_body(s@));
            assert(!all_hex(body@));
            return None;
        }
        i = i + 1;
    }
    let mut value: u64 = 0;
    let mut j: usize = 0;
    assert(body@.take(0) =~= Seq::<char>::empty());
    while j < body.len()
        invariant
            j <= body@.len(),
            forall|k: int| 0 <= k < body@.len() ==> hex_value(#[trigger] body@[k]) >= 0,
            value == hex_digits_value(body@.take(j as int)),
            value <= u32::MAX,
        decreases body@.len() - j,
    {
        let c = body[j];
        let d: u64 = if '0' <= c && c <= '9' {
            (c as u32 - 48) as u64
        } else if 'a' <= c && c <= 'f' {
            (c as u32 - 87) as u64
        } else {
            (c as u32 - 55) as u64
        };
        assert(d == hex_value(body@[j as int]));
        assert(body@.take(j as int + 1).drop_last() =~= body@.take(j as int));
        let next = value * 16 + d;
        j = j + 1;
        if next > 0xffff_ffff {
            proof {
                lemma_hex_grows(body@, j as int);
            }
            return None;
        }
        value = next;
    }
    assert(body@.take(j as int) =~= body@);
    Some(value as u32)
}

/// The character an HTML entity's name (between `&` and `;`) stands for.
pub open spec fn entity_char(e: Seq<char>) -> Option<char> {
    if e == "amp"@ {
        Some('&')
    } else if e == "quot"@ {
        Some('"')
    } else if e == "apos"@ {
        Some('\'')
    } else if e == "lt"@ {
        Some('<')
    } else if e == "gt"@ {
        Some('>')
    } else if e == "nbsp"@ {
        Some(' ')
    } else if e.len() > 0 && e[0] == '#' {
        let number = e.drop_first();
        let value = if number.len() > 0 && (number[0] == 'x' || number[0] == 'X') {
            parse_hex(number.drop_first())
        } else {
            parse_u32(number)
        };
        match value {
            Some(v) => if scalar(v) { Some(char_of(v)) } else { None },
            None => None,
        }
    } else {
        None
    }
}

fn entity_of(e: &[char]) -> (r: Option<char>)
    ensures
        r == entity_char(e@),
{
    if is(e, "amp") {
        Some('&')
    } else if is(e, "quot") {
        Some('"')
    } else if is(e, "apos") {
        Some('\'')
    } else if is(e, "lt") {
        Some('<')
    } else if is(e, "gt") {
        Some('>')
    } else if is(e, "nbsp") {
        Some(' ')
    } else if e.len() > 0 && e[0] == '#' {
        let number = slice(e, 1, e.len());
        assert(number@ =~= e@.drop_first());
        let value = if number.len() > 0 && (number[0] == 'x' || number[0] == 'X') {
            let hex = slice(number.as_slice(), 1, number.len());
            assert(hex@ =~= number@.drop_first());
            hex_u32(hex.as_slice())
        } else {
            parse_u32_of(number.as_slice())
        };
        match value {
            Some(v) => match char_from_u32(v) {
                Some(c) => {
                    Some(c)
                },
                None => None,
            },
            None => None,
        }
    } else {
        None
    }
}

/// A text with its HTML entities replaced: named ones for `& " ' < > `
/// and the no-break space, and numeric ones; an `&` that starts none stays.
pub open spec fn decoded(rest: Seq<char>) -> Seq<char>
    decreases rest.len(),
{
    match find(rest, seq!['&']) {
        None => rest,
        Some(at) => {
            proof {
                crate::text::lemma_find_from_bounds(rest, seq!['&'], 0);
            }
            let head = rest.take(at);
            let tail = rest.skip(at);
            match find(tail, seq![';']) {
                Some(end) => if end <= 10 && end >= 1 {
                    proof {
                        crate::text::lemma_find_from_bounds(tail, seq![';'], 0);
                    }
                    match entity_char(tail.subrange(1, end)) {
                        Some(c) => head.push(c) + decoded(tail.skip(end + 1)),
                        None => head.push('&') + decoded(tail.skip(1)),
                    }
                } else {
                    head.push('&') + decoded(tail.skip(1))
                },
                None => head.push('&') + decoded(tail.skip(1)),
            }
        },
    }
}

fn decode_entities(text: &[char]) -> (out: Vec<char>)
    ensures
        out@ == decoded(text@),
{
    let mut out: Vec<char> = Vec::new();
    let mut rest = crate::text::copy(text);
    while rest.len() > 0
        invariant
            out@ + decoded(rest@) == decoded(text@),
        decreases rest@.len(),
    {
        let ghost r0 = rest@;
        match find_char(rest.as_slice(), '&') {
            None => {
                extend(&mut out, rest.as_slice());
                assert(out@ == decoded(text@));
                return out;
            },
            Some(at) => {
                proof {
                    crate::text::lemma_find_from_bounds(rest@, seq!['&'], 0);
                }
                let n = rest.len();
                let head = slice(rest.as_slice(), 0, at);
                let tail = slice(rest.as_slice(), at, n);
                assert(head@ =~= rest@.take(at as int));
                assert(tail@ =~= rest@.skip(at as int));
                extend(&mut out, head.as_slice());
                let m = tail.len();
                let mut next = slice(tail.as_slice(), 1, m);
                assert(next@ =~= tail@.skip(1));
                let mut c = '&';
                match find_char(tail.as_slice(), ';') {
                    Some(end) => {
                        proof {
                            crate::text::lemma_find_from_bounds(tail@, seq![';'], 0);
                        }
                        if end <= 10 && end >= 1 {
                            let name = slice(tail.as_slice(), 1, end);
                            match entity_of(name.as_slice()) {
                                Some(ch) => {
                                    c = ch;
                                    next = slice(tail.as_slice(), end + 1, m);
                                    assert(next@ =~= tail@.skip(end + 1));
                                },
                                None => {},
                            }
                        }
                    },
                    None => {},
                }
                out.push(c);
                rest = next;
                assert(out@ + decoded(rest@) =~= decoded(text@));
            },
        }
    }
    assert(decoded(rest@) =~= rest@);
    out
}

/// The value of an attribute written ` name=` and quoted with `q`: `None`
/// when the attribute is absent, `Some(None)` when its quote never closes.
pub open spec fn quoted_attr(tag: Seq<char>, name: Seq<char>, q: char) -> Option<Option<Seq<char>>> {
    let needle = seq![' '] + name + seq!['=', q];
    match find(tag, needle) {
        None => None,
        Some(at) => {
            let from = at + needle.len();
            match find(tag.skip(from), seq![q]) {
                None => Some(None),
                Some(len) => Some(Some(tag.subrange(from, from + len))),
            }
        },
    }
}

/// An attribute's value in a tag, double quotes tried before single.
pub open spec fn attr(tag: Seq<char>, name: Seq<char>) -> Option<Seq<char>> {
    match quoted_attr(tag, name, '"') {
        Some(r) => r,
        None => match quoted_attr(tag, name, '\'') {
            Some(r) => r,
            None => None,
        },
    }
}

fn quoted_attribute(tag: &[char], name: &[char], q: char) -> (r: Option<Option<Vec<char>>>)
    ensures
        match quoted_attr(tag@, name@, q) {
            None => r is None,
            Some(None) => r matches Some(None),
            Some(Some(v)) => r matches Some(Some(x)) && x@ == v,
        },
{
    let mut needle: Vec<char> = vec![' '];
    extend(&mut needle, name);
    needle.push('=');
    needle.push(q);
    assert(needle@ =~= seq![' '] + name@ + seq!['=', q]);
    match find_in(tag, needle.as_slice()) {
        None => None,
        Some(at) => {
            proof {
                crate::text::lemma_find_from_bounds(tag@, needle@, 0);
            }
            let tl = tag.len();
            assert(at + needle@.len() <= tl);
            let from = at + needle.len();
            let after = slice(tag, from, tl);
            assert(after@ =~= tag@.skip(from as int));
            match find_char(after.as_slice(), q) {
                None => Some(None),
                Some(len) => {
                    proof {
                        crate::text::lemma_find_from_bounds(after@, seq![q], 0);
                    }
                    let v = slice(tag, from, from + len);
                    Some(Some(v))
                },
            }
        },
    }
}

fn attribute(tag: &[char], name: &str) -> (r: Option<Vec<char>>)
    ensures
        match attr(tag@, name@) {
            Some(v) => r matches Some(x) && x@ == v,
            None => r is None,
        },
{
    let n = chars_of(name);
    match quoted_attribute(tag, n.as_slice(), '"') {
        Some(r) => r,
        None => match quoted_attribute(tag, n.as_slice(), '\'') {
            Some(r) => r,
            None => None,
        },
    }
}

/// The content of the first `<meta>` tag, from `rest` on, whose
/// `property` or `name` is `key` and that has a `content`.
pub open spec fn meta_from(rest: Seq<char>, key: Seq<char>) -> Option<Seq<char>>
    decreases rest.len(),
{
    match find(rest, "<meta"@) {
        None => None,
        Some(at) => {
            proof {
                crate::text::lemma_find_from_bounds(rest, "<meta"@, 0);
            }
            let tag0 = rest.skip(at);
            match find(tag0, seq!['>']) {
                None => None,
                Some(end) => {
                    proof {
                        crate::text::lemma_find_from_bounds(tag0, seq!['>'], 0);
                        reveal_strlit("<meta");
                        assert(tag0[0] == rest[at]);
                        assert(rest.subrange(at, at + 5)[0] == rest[at]);
                    }
                    let tag = tag0.take(end);
                    let named = attr(tag, "property"@) == Some(key) || attr(tag, "name"@) == Some(key);
                    if named && attr(tag, "content"@) is Some {
                        attr(tag, "content"@)
                    } else if end == 0 {
                        None
                    } else {
                        meta_from(rest.skip(at + end), key)
                    }
                },
            }
        },
    }
}

fn meta_content(body: &[char], key: &[char]) -> (r: Option<Vec<char>>)
    ensures
        match meta_from(body@, key@) {
            Some(v) => r matches Some(x) && x@ == v,
            None => r is None,
        },
{
    let mut rest = crate::text::copy(body);
    while rest.len() > 0
        invariant
            meta_from(rest@, key@) == meta_from(body@, key@),
        decreases rest@.len(),
    {
        let at = match find_str(rest.as_slice(), "<meta") {
            Some(at) => at,
            None => {
                return None;
            },
        };
        proof {
            crate::text::lemma_find_from_bounds(rest@, "<meta"@, 0);
        }
        let n = rest.len();
        let tag0 = slice(rest.as_slice(), at, n);
        assert(tag0@ =~= rest@.skip(at as int));
        let end = match find_char(tag0.as_slice(), '>') {
            Some(end) => end,
            None => {
                return None;
            },
        };
        proof {
            crate::text::lemma_find_from_bounds(tag0@, seq!['>'], 0);
        }
        let tag = slice(tag0.as_slice(), 0, end);
        assert(tag@ =~= tag0@.take(end as int));
        let key_text = string_of(key);
        let named = match attribute(tag.as_slice(), "property") {
            Some(v) => crate::text::same(v.as_slice(), key),
            None => false,
        } || match attribute(tag.as_slice(), "name") {
            Some(v) => crate::text::same(v.as_slice(), key),
            None => false,
        };
        if named {
            match attribute(tag.as_slice(), "content") {
                Some(c) => {
                    return Some(c);
                },
                None => {},
            }
        }
        if end == 0 {
            return None;
        }
        let next = slice(rest.as_slice(), at + end, n);
        assert(next@ =~= rest@.skip(at + end));
        rest = next;
    }
    proof {
        reveal_strlit("<meta");
    }
    assert(find(rest@, "<meta"@) is None);
    None
}

/// The text of a `<title>` element.
pub open spec fn title_element(body: Seq<char>) -> Option<Seq<char>> {
    match find(body, "<title"@) {
        None => None,
        Some(open) => {
            let after = body.skip(open);
            match find(after, seq!['>']) {
                None => None,
                Some(gt) => {
                    let start = gt + 1;
                    match find(after.skip(start), "</title"@) {
                        None => None,
                        Some(end) => Some(after.subrange(start, start + end)),
                    }
                },
            }
        },
    }
}

/// A page's title: its `og:title`, else its `<title>`, with entities
/// decoded, white space collapsed, and a trailing `| riftdecks` site name
/// dropped.
pub open spec fn page_title(body: Seq<char>) -> Option<Seq<char>> {
    let raw = match meta_from(body, "og:title"@) {
        Some(t) => Some(t),
        None => title_element(body),
    };
    match raw {
        None => None,
        Some(raw) => {
            let text = spaced(words(decoded(raw)));
            let text = match rsplit_once(text, " | "@) {
                Some((head, site)) => if find(lower_seq(site), "riftdecks"@) is Some { head } else { text },
                None => text,
            };
            if text.len() == 0 { None } else { Some(text) }
        },
    }
}

fn title_element_of(body: &[char]) -> (r: Option<Vec<char>>)
    ensures
        match title_element(body@) {
            Some(v) => r matches Some(x) && x@ == v,
            None => r is None,
        },
{
    let open = match find_str(body, "<title") {
        Some(o) => o,
        None => {
            return None;
        },
    };
    proof {
        crate::text::lemma_find_from_bounds(body@, "<title"@, 0);
    }
    let bl = body.len();
    let after = slice(body, open, bl);
    assert(after@ =~= body@.skip(open as int));
    let gt = match find_char(after.as_slice(), '>') {
        Some(g) => g,
        None => {
            return None;
        },
    };
    proof {
        crate::text::lemma_find_from_bounds(after@, seq!['>'], 0);
    }
    let start = gt + 1;
    let al = after.len();
    let tail = slice(after.as_slice(), start, al);
    assert(tail@ =~= after@.skip(start as int));
    let end = match find_str(tail.as_slice(), "</title") {
        Some(e) => e,
        None => {
            return None;
        },
    };
    proof {
        crate::text::lemma_find_from_bounds(tail@, "</title"@, 0);
    }
    Some(slice(after.as_slice(), start, start + end))
}

/// A page's title, as the deck's name.
pub fn title(body: &str) -> (r: Option<String>)
    ensures
        match page_title(body@) {
            Some(t) => r matches Some(s) && s@ == t,
            None => r is None,
        },
{
    let cs = chars_of(body);
    let key = chars_of("og:title");
    let raw = match meta_content(cs.as_slice(), key.as_slice()) {
        Some(t) => t,
        None => match title_element_of(cs.as_slice()) {
            Some(t) => t,
            None => {
                return None;
            },
        },
    };
    let dec = decode_entities(raw.as_slice());
    let ws = words_of(dec.as_slice());
    let text = join_spaced(&ws);
    let sep = chars_of(" | ");
    let text = match crate::text::rsplit_once_at(text.as_slice(), sep.as_slice()) {
        Some((head, site)) => {
            let lower = lower_all(site.as_slice());
            if find_str(lower.as_slice(), "riftdecks").is_some() {
                head
            } else {
                text
            }
        },
        None => text,
    };
    if text.len() == 0 {
        None
    } else {
        Some(string_of(text.as_slice()))
    }
}

/// The text of an HTML chunk outside its tags.
pub open spec fn between_tags(s: Seq<char>) -> Seq<char> {
    between_fold(s).0
}

pub open spec fn between_fold(s: Seq<char>) -> (Seq<char>, bool)
    decreases s.len(),
{
    if s.len() == 0 {
        (Seq::empty(), false)
    } else {
        let (out, in_tag) = between_fold(s.drop_last());
        let c = s.last();
        if c == '<' {
            (out, true)
        } else if c == '>' {
            (out, false)
        } else if !in_tag {
            (out.push(c), in_tag)
        } else {
            (out, in_tag)
        }
    }
}

pub(crate) fn text_between_tags(chunk: &[char]) -> (out: Vec<char>)
    ensures
        out@ == between_tags(chunk@),
{
    let mut out: Vec<char> = Vec::new();
    let mut in_tag = false;
    let mut i: usize = 0;
    while i < chunk.len()
        invariant
            i <= chunk@.len(),
            (out@, in_tag) == between_fold(chunk@.take(i as int)),
        decreases chunk@.len() - i,
    {
        let c = chunk[i];
        assert(chunk@.take(i as int + 1).drop_last() =~= chunk@.take(i as int));
        if c == '<' {
            in_tag = true;
        } else if c == '>' {
            in_tag = false;
        } else if !in_tag {
            out.push(c);
        }
        i = i + 1;
    }
    assert(chunk@.take(i as int) =~= chunk@);
    out
}

/// The card name a row links to.
pub open spec fn linked_name(chunk: Seq<char>) -> Option<Seq<char>> {
    match find(chunk, "href=\"/cards/"@) {
        None => None,
        Some(anchor) => {
            let after = chunk.skip(anchor);
            match find(after, seq!['>']) {
                None => None,
                Some(gt) => {
                    let inner = after.skip(gt + 1);
                    match find(inner, "</a>"@) {
                        None => None,
                        Some(close) => {
                            let name = spaced(words(decoded(between_tags(inner.take(close)))));
                            if name.len() == 0 { None } else { Some(name) }
                        },
                    }
                },
            }
        },
    }
}

fn riftdecks_name(chunk: &[char]) -> (r: Option<Vec<char>>)
    ensures
        match linked_name(chunk@) {
            Some(v) => r matches Some(x) && x@ == v,
            None => r is None,
        },
{
    let anchor = match find_str(chunk, "href=\"/cards/") {
        Some(a) => a,
        None => {
            return None;
        },
    };
    proof {
        crate::text::lemma_find_from_bounds(chunk@, "href=\"/cards/"@, 0);
    }
    let cl = chunk.len();
    let after = slice(chunk, anchor, cl);
    assert(after@ =~= chunk@.skip(anchor as int));
    let gt = match find_char(after.as_slice(), '>') {
        Some(g) => g,
        None => {
            return None;
        },
    };
    proof {
        crate::text::lemma_find_from_bounds(after@, seq!['>'], 0);
    }
    let al = after.len();
    let inner = slice(after.as_slice(), gt + 1, al);
    assert(inner@ =~= after@.skip(gt + 1));
    let close = match find_str(inner.as_slice(), "</a>") {
        Some(c) => c,
        None => {
            return None;
        },
    };
    proof {
        crate::text::lemma_find_from_bounds(inner@, "</a>"@, 0);
    }
    let body = slice(inner.as_slice(), 0, close);
    assert(body@ =~= inner@.take(close as int));
    let text = decode_entities(text_between_tags(body.as_slice()).as_slice());
    let name = join_spaced(&words_of(text.as_slice()));
    if name.len() == 0 {
        None
    } else {
        Some(name)
    }
}

/// The file name stem of an image path: after the last `/`, before the
/// first `_` or `.`.
pub open spec fn stem_of(path: Seq<char>) -> Option<Seq<char>> {
    let file = match rfind(path, seq!['/']) {
        Some(k) => path.skip(k + 1),
        None => path,
    };
    let stem = upto(file, 0, |c: char| c == '_' || c == '.');
    if stem.len() == 0 { None } else { Some(stem) }
}

fn image_stem(path: &[char]) -> (r: Option<Vec<char>>)
    ensures
        match stem_of(path@) {
            Some(v) => r matches Some(x) && x@ == v,
            None => r is None,
        },
{
    let pl = path.len();
    let file = match crate::text::rfind_char(path, '/') {
        Some(k) => {
            proof {
                crate::text::lemma_rfind_upto_bounds(path@, seq!['/'], path@.len() - 1);
            }
            let f = slice(path, k + 1, pl);
            assert(f@ =~= path@.skip(k + 1));
            f
        },
        None => crate::text::copy(path),
    };
    let ghost stop = |c: char| c == '_' || c == '.';
    let mut i: usize = 0;
    while i < file.len() && file[i] != '_' && file[i] != '.'
        invariant
            i <= file@.len(),
            stop == (|c: char| c == '_' || c == '.'),
            upto(file@, 0, stop) == upto(file@, i as int, stop),
        decreases file@.len() - i,
    {
        i = i + 1;
    }
    let stem = slice(file.as_slice(), 0, i);
    proof {
        if i < file@.len() {
            assert(stop(file@[i as int]));
        }
        assert(stem@ =~= upto(file@, i as int, stop));
    }
    if stem.len() == 0 {
        None
    } else {
        Some(stem)
    }
}

/// The section a riftdecks card type names.
pub open spec fn card_type_section(t: Seq<char>) -> Option<Section> {
    if t == "legend"@ {
        Some(Section::Legend)
    } else if t == "champion"@ {
        Some(Section::Champion)
    } else if t == "runes"@ || t == "rune"@ {
        Some(Section::Runes)
    } else if t == "battlefield"@ || t == "battlefields"@ {
        Some(Section::Battlefields)
    } else if t == "sideboard"@ {
        Some(Section::Sideboard)
    } else {
        None
    }
}

fn riftdecks_section(t: &[char]) -> (r: Option<Section>)
    ensures
        r == card_type_section(t@),
{
    if is(t, "legend") {
        Some(Section::Legend)
    } else if is(t, "champion") {
        Some(Section::Champion)
    } else if is(t, "runes") || is(t, "rune") {
        Some(Section::Runes)
    } else if is(t, "battlefield") || is(t, "battlefields") {
        Some(Section::Battlefields)
    } else if is(t, "sideboard") {
        Some(Section::Sideboard)
    } else {
        None
    }
}

/// The entry a riftdecks card row holds: its quantity, its card by image
/// id or else by linked name, and its section.
pub open spec fn row_entry(chunk: Seq<char>) -> Option<(IdentifierView, u32, Option<Section>)> {
    match find(chunk, seq!['>']) {
        None => None,
        Some(gt) => {
            let tag = chunk.take(gt);
            match attr(tag, "data-quantity"@) {
                None => None,
                Some(q) => match parse_u32(trim(q)) {
                    None => None,
                    Some(quantity) => if quantity == 0 {
                        None
                    } else {
                        let row_end = match find(chunk, "</tr>"@) {
                            Some(e) => e,
                            None => chunk.len() as int,
                        };
                        let section = match attr(tag, "data-card-type"@) {
                            Some(t) => card_type_section(lower_seq(trim(t))),
                            None => None,
                        };
                        let stem = match attr(tag, "data-image-src"@) {
                            Some(src) => stem_of(src),
                            None => None,
                        };
                        match stem {
                            Some(id) => Some((IdentifierView::Id(lower_seq(id)), quantity, section)),
                            None => match linked_name(chunk.take(row_end)) {
                                Some(name) => Some((IdentifierView::Name(name), quantity, section)),
                                None => None,
                            },
                        }
                    },
                },
            }
        },
    }
}

fn riftdecks_row(chunk: &[char]) -> (r: Option<ParsedEntry>)
    ensures
        match row_entry(chunk@) {
            Some(v) => r matches Some(e) && crate::riftbound::entry_view(e) == v,
            None => r is None,
        },
{
    let gt = match find_char(chunk, '>') {
        Some(g) => g,
        None => {
            return None;
        },
    };
    proof {
        crate::text::lemma_find_from_bounds(chunk@, seq!['>'], 0);
    }
    let tag = slice(chunk, 0, gt);
    assert(tag@ =~= chunk@.take(gt as int));
    let q = match attribute(tag.as_slice(), "data-quantity") {
        Some(q) => q,
        None => {
            return None;
        },
    };
    let quantity = match parse_u32_of(trim_of(q.as_slice()).as_slice()) {
        Some(n) => n,
        None => {
            return None;
        },
    };
    if quantity == 0 {
        return None;
    }
    let cl = chunk.len();
    let row_end = match find_str(chunk, "</tr>") {
        Some(e) => {
            proof {
                crate::text::lemma_find_from_bounds(chunk@, "</tr>"@, 0);
            }
            e
        },
        None => cl,
    };
    let section = match attribute(tag.as_slice(), "data-card-type") {
        Some(t) => riftdecks_section(lower_all(trim_of(t.as_slice()).as_slice()).as_slice()),
        None => None,
    };
    let stem = match attribute(tag.as_slice(), "data-image-src") {
        Some(src) => image_stem(src.as_slice()),
        None => None,
    };
    let identifier = match stem {
        Some(id) => Identifier::Id(string_of(lower_all(id.as_slice()).as_slice())),
        None => {
            let row = slice(chunk, 0, row_end);
            assert(row@ =~= chunk@.take(row_end as int));
            match riftdecks_name(row.as_slice()) {
                Some(name) => Identifier::Name(string_of(name.as_slice())),
                None => {
                    return None;
                },
            }
        },
    };
    Some(crate::deck::ParsedEntry { identifier, count: quantity, section })
}

/// A text cut at every `p` (`p` not empty).
pub open spec fn split_text(s: Seq<char>, p: Seq<char>) -> Seq<Seq<char>>
    decreases s.len(),
{
    if p.len() == 0 {
        seq![s]
    } else {
        match find(s, p) {
            None => seq![s],
            Some(k) => {
                proof {
                    crate::text::lemma_find_from_bounds(s, p, 0);
                }
                seq![s.take(k)] + split_text(s.skip(k + p.len()), p)
            },
        }
    }
}

/// The entries of the rows that read, in page order.
pub open spec fn rows_read(chunks: Seq<Seq<char>>) -> Seq<(IdentifierView, u32, Option<Section>)>
    decreases chunks.len(),
{
    if chunks.len() == 0 {
        Seq::empty()
    } else {
        let before = rows_read(chunks.drop_last());
        match row_entry(chunks.last()) {
            Some(e) => before.push(e),
            None => before,
        }
    }
}

/// The deck a riftdecks page lists: one entry per card row that reads.
pub open spec fn riftdecks_rows(body: Seq<char>) -> Seq<(IdentifierView, u32, Option<Section>)> {
    rows_read(split_text(body, "card-list-item"@).drop_first())
}

pub(crate) fn split_text_of(s: &[char], p: &str) -> (r: Vec<Vec<char>>)
    ensures
        views(r@) == split_text(s@, p@),
{
    let pc = chars_of(p);
    if pc.len() == 0 {
        let v = vec![crate::text::copy(s)];
        assert(views(v@) =~= seq![s@]);
        return v;
    }
    let mut out: Vec<Vec<char>> = Vec::new();
    let mut rest = crate::text::copy(s);
    loop
        invariant
            pc@ == p@,
            pc@.len() > 0,
            views(out@) + split_text(rest@, p@) == split_text(s@, p@),
        decreases rest@.len(),
    {
        match find_in(rest.as_slice(), pc.as_slice()) {
            None => {
                let ghost before = views(out@);
                out.push(rest);
                assert(views(out@) =~= before.push(rest@));
                assert(views(out@) =~= split_text(s@, p@));
                return out;
            },
            Some(k) => {
                proof {
                    crate::text::lemma_find_from_bounds(rest@, pc@, 0);
                }
                let rl = rest.len();
                let head = slice(rest.as_slice(), 0, k);
                let tail = slice(rest.as_slice(), k + pc.len(), rl);
                assert(head@ =~= rest@.take(k as int));
                assert(tail@ =~= rest@.skip(k + pc@.len()));
                let ghost before = views(out@);
                let ghost old_rest = rest@;
                out.push(head);
                assert(views(out@) =~= before.push(head@));
                rest = tail;
                assert(split_text(old_rest, p@) == seq![head@] + split_text(rest@, p@));
                assert(views(out@) + split_text(rest@, p@) =~= before + split_text(old_rest, p@));
            },
        }
    }
}

fn extract_riftdecks(body: &[char]) -> (r: Option<ParsedDeck>)
    ensures
        match r {
            Some(d) => entries_view(d.entries@) == riftdecks_rows(body@) && d.entries@.len() > 0,
            None => riftdecks_rows(body@).len() == 0,
        },
{
    let chunks = split_text_of(body, "card-list-item");
    let ghost cs = views(chunks@);
    let mut deck: ParsedDeck = crate::deck::ParsedDeck::new();
    assert(entries_view(deck.entries@) =~= rows_read(cs.skip(1).take(0)));
    let mut i: usize = 1;
    while i < chunks.len()
        invariant
            1 <= i,
            i <= chunks@.len() || chunks@.len() == 0,
            cs == views(chunks@),
            cs == split_text(body@, "card-list-item"@),
            cs.len() >= 1,
            entries_view(deck.entries@) == rows_read(cs.drop_first().take(i - 1)),
        decreases chunks@.len() - i,
    {
        assert(cs.drop_first().take(i as int).drop_last() =~= cs.drop_first().take(i - 1));
        assert(cs.drop_first().take(i as int).last() == chunks@[i as int]@);
        match riftdecks_row(chunks[i].as_slice()) {
            Some(e) => {
                let ghost before = deck.entries@;
                deck.entries.push(e);
                assert(entries_view(deck.entries@) =~= entries_view(before).push(crate::riftbound::entry_view(e)));
            },
            None => {},
        }
        i = i + 1;
    }
    assert(cs.drop_first().take(cs.len() - 1) =~= cs.drop_first());
    if deck.entries.len() == 0 {
        None
    } else {
        Some(deck)
    }
}

/// The deck code a Piltover Archive page links its deck builder to, else
/// the first code anywhere in the page.
pub open spec fn piltover_code(body: Seq<char>) -> Option<Seq<char>> {
    let marker = "/deckbuilder?code="@;
    let linked = match find(body, marker) {
        Some(at) => {
            let tail = body.skip(at + marker.len());
            let len = alnum_run(tail);
            if len >= 16 && decode_text(tail.take(len as int)) is Ok {
                Some(tail.take(len as int))
            } else {
                None
            }
        },
        None => None,
    };
    match linked {
        Some(c) => Some(c),
        None => scan(body, 0, -1),
    }
}

/// How many ASCII letters and digits `s` starts with.
pub open spec fn alnum_run(s: Seq<char>) -> nat
    decreases s.len(),
{
    if s.len() > 0 && is_ascii_alnum(s[0]) {
        1 + alnum_run(s.drop_first())
    } else {
        0
    }
}

proof fn lemma_alnum_run(s: Seq<char>, i: int)
    requires
        0 <= i <= s.len(),
        forall|k: int| 0 <= k < i ==> is_ascii_alnum(#[trigger] s[k]),
        i == s.len() || !is_ascii_alnum(s[i]),
    ensures
        alnum_run(s) == i,
    decreases i,
{
    if i > 0 {
        assert forall|k: int| 0 <= k < i - 1 implies is_ascii_alnum(#[trigger] s.drop_first()[k]) by {
            assert(s.drop_first()[k] == s[k + 1]);
        }
        if i < s.len() {
            assert(s.drop_first()[i - 1] == s[i]);
        }
        lemma_alnum_run(s.drop_first(), i - 1);
    }
}

fn extract_piltover(body: &[char]) -> (r: Option<String>)
    ensures
        match piltover_code(body@) {
            Some(c) => r matches Some(s) && s@ == c,
            None => r is None,
        },
{
    proof {
        reveal_strlit("/deckbuilder?code=");
    }
    let marker = chars_of("/deckbuilder?code=");
    match find_in(body, marker.as_slice()) {
        Some(at) => {
            proof {
                crate::text::lemma_find_from_bounds(body@, marker@, 0);
            }
            let bl = body.len();
            let tail = slice(body, at + marker.len(), bl);
            assert(tail@ =~= body@.skip(at + marker@.len()));
            let mut len: usize = 0;
            while len < tail.len() && crate::text::ascii_alnum(tail[len])
                invariant
                    len <= tail@.len(),
                    forall|k: int| 0 <= k < len ==> is_ascii_alnum(#[trigger] tail@[k]),
                decreases tail@.len() - len,
            {
                len = len + 1;
            }
            proof {
                lemma_alnum_run(tail@, len as int);
            }
            if len >= 16 {
                let code = slice(tail.as_slice(), 0, len);
                assert(code@ =~= tail@.take(len as int));
                let text = string_of(code.as_slice());
                match decode(text.as_str()) {
                    Ok(_) => {
                        return Some(text);
                    },
                    Err(_) => {},
                }
            }
        },
        None => {},
    }
    let text = string_of(body);
    scan_for_code(text.as_str())
}

/// What a site's page yields: Piltover Archive its linked or embedded
/// code; riftdecks its card rows, else an embedded code; the others an
/// embedded code.
pub open spec fn extracted(site: Site, body: Seq<char>) -> Option<Result<Seq<char>, Seq<(IdentifierView, u32, Option<Section>)>>> {
    match site {
        Site::PiltoverArchive => match piltover_code(body) {
            Some(c) => Some(Ok(c)),
            None => None,
        },
        Site::RiftDecks => if riftdecks_rows(body).len() > 0 {
            Some(Err(riftdecks_rows(body)))
        } else {
            match scan(body, 0, -1) {
                Some(c) => Some(Ok(c)),
                None => None,
            }
        },
        _ => match scan(body, 0, -1) {
            Some(c) => Some(Ok(c)),
            None => None,
        },
    }
}

/// The deck a fetched site page holds: a code or a card list, or an error
/// naming the site.
pub fn extract(site: Site, body: &str) -> (r: Result<Extracted, ExtractError>)
    ensures
        match extracted(site, body@) {
            Some(Ok(code)) => r matches Ok(Extracted::Code(s)) && s@ == code,
            Some(Err(rows)) => r matches Ok(Extracted::Deck(d)) && entries_view(d.entries@) == rows,
            None => r == Err::<Extracted, ExtractError>(ExtractError { site }),
        },
{
    let cs = chars_of(body);
    let error = ExtractError { site };
    match site {
        Site::PiltoverArchive => match extract_piltover(cs.as_slice()) {
            Some(c) => Ok(Extracted::Code(c)),
            None => Err(error),
        },
        Site::RiftDecks => match extract_riftdecks(cs.as_slice()) {
            Some(d) => Ok(Extracted::Deck(d)),
            None => match scan_for_code(body) {
                Some(c) => Ok(Extracted::Code(c)),
                None => Err(error),
            },
        },
        _ => match scan_for_code(body) {
            Some(c) => Ok(Extracted::Code(c)),
            None => Err(error),
        },
    }
}

} // verus!
