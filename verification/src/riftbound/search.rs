//! Deck searches on the deck sites: the address a search is sent to.
use vstd::prelude::*;
use crate::naming::{encode_component, encoded_bytes};
use crate::text::{
    chars_of, decimal, extend, find, find_char, is, join_spaced, push_decimal, slice, spaced, split_once, split_once_at,
    split_once_char, starts, starts_with_str, string_of, trim, trim_of, views, words, words_of,
};
use crate::riftbound::link::{between_tags, replaced, replaced_of, split_text, split_text_of, text_between_tags};

verus! {

/// The most results a search answers with.
pub const LIMIT: usize = 20usize;

/// A control character, as `char::is_control` reads it.
pub open spec fn control(c: char) -> bool {
    (c as u32) <= 0x1f || (0x7f <= (c as u32) && (c as u32) <= 0x9f)
}

/// Why a search is refused, if it is: a query past 160 bytes or with a
/// control character, a page outside 1 to 10, or an unknown site.
pub open spec fn search_refusal(site: Seq<char>, query: Seq<char>, page: u32) -> Option<Seq<char>> {
    if vstd::utf8::encode_utf8(query).len() > 160 || (exists|i: int| 0 <= i < query.len() && control(#[trigger] query[i]))
        || !(1 <= page <= 10) {
        Some("Search needs at most 160 bytes and page 1–10"@)
    } else if site != "piltover"@ && site != "riftdecks"@ {
        Some("Choose piltover or riftdecks"@)
    } else {
        None
    }
}

/// The address a search is sent to: the site's fixed origin, the trimmed
/// query escaped, and the page.
pub open spec fn search_address(site: Seq<char>, query: Seq<char>, page: u32) -> Seq<char> {
    let q = encoded_bytes(vstd::utf8::encode_utf8(trim(query)));
    if site == "piltover"@ {
        "https://piltoverarchive.com/decks?q="@ + q + "&page="@ + decimal(page as nat)
    } else {
        "https://riftdecks.com/riftbound-decks?omni="@ + q + "&page="@ + decimal(page as nat)
    }
}

fn any_control(s: &[char]) -> (r: bool)
    ensures
        r == exists|i: int| 0 <= i < s@.len() && control(#[trigger] s@[i]),
{
    let mut i: usize = 0;
    while i < s.len()
        invariant
            i <= s@.len(),
            forall|j: int| 0 <= j < i ==> !control(#[trigger] s@[j]),
        decreases s@.len() - i,
    {
        let v = s[i] as u32;
        if v <= 0x1f || (0x7f <= v && v <= 0x9f) {
            assert(control(s@[i as int]));
            return true;
        }
        i = i + 1;
    }
    false
}

/// The address of a deck search on `site`, or why the search is refused.
pub fn search_url(site: &str, query: &str, page: u32) -> (r: Result<String, String>)
    ensures
        match search_refusal(site@, query@, page) {
            Some(why) => r matches Err(e) && e@ == why,
            None => r matches Ok(u) && u@ == search_address(site@, query@, page),
        },
{
    let qc = chars_of(query);
    if query.as_bytes().len() > 160 || any_control(qc.as_slice()) || !(1 <= page && page <= 10) {
        return Err(string_of(chars_of("Search needs at most 160 bytes and page 1–10").as_slice()));
    }
    let trimmed = string_of(trim_of(qc.as_slice()).as_slice());
    let encoded = encode_component(trimmed.as_str());
    let s = chars_of(site);
    let mut out = if is(s.as_slice(), "piltover") {
        chars_of("https://piltoverarchive.com/decks?q=")
    } else if is(s.as_slice(), "riftdecks") {
        chars_of("https://riftdecks.com/riftbound-decks?omni=")
    } else {
        return Err(string_of(chars_of("Choose piltover or riftdecks").as_slice()));
    };
    extend(&mut out, chars_of(encoded.as_str()).as_slice());
    extend(&mut out, chars_of("&page=").as_slice());
    push_decimal(&mut out, page);
    Ok(string_of(out.as_slice()))
}

/// The text a reader sees of a link's contents: what stands outside its
/// tags, with the common entities read, its spaces collapsed, and at most
/// 200 characters of it.
pub open spec fn plain_text(text: Seq<char>) -> Seq<char> {
    let t = between_tags(text);
    let t = replaced(t, "&amp;"@, "&"@);
    let t = replaced(t, "&#39;"@, "'"@);
    let t = replaced(t, "&quot;"@, "\""@);
    let t = replaced(t, "&lt;"@, "<"@);
    let t = replaced(t, "&gt;"@, ">"@);
    let t = replaced(t, "&nbsp;"@, " "@);
    let s = spaced(words(t));
    if s.len() > 200 {
        s.take(200)
    } else {
        s
    }
}

/// The text a reader sees of a link's contents.
pub fn plain(text: &str) -> (r: String)
    ensures
        r@ == plain_text(text@),
{
    let t = text_between_tags(chars_of(text).as_slice());
    let t = replaced_of(t.as_slice(), "&amp;", "&");
    let t = replaced_of(t.as_slice(), "&#39;", "'");
    let t = replaced_of(t.as_slice(), "&quot;", "\"");
    let t = replaced_of(t.as_slice(), "&lt;", "<");
    let t = replaced_of(t.as_slice(), "&gt;", ">");
    let t = replaced_of(t.as_slice(), "&nbsp;", " ");
    let s = join_spaced(&words_of(t.as_slice()));
    if s.len() > 200 {
        let cut = slice(s.as_slice(), 0, 200);
        assert(cut@ =~= s@.take(200));
        string_of(cut.as_slice())
    } else {
        string_of(s.as_slice())
    }
}

/// A deck a search found: its title and its link.
#[derive(Debug, Clone, PartialEq, Eq)]
pub struct SearchResult {
    pub title: String,
    pub url: String,
}

/// The fixed origin of a search site.
pub open spec fn origin_of(site: Seq<char>) -> Option<Seq<char>> {
    if site == "piltover"@ {
        Some("https://piltoverarchive.com"@)
    } else if site == "riftdecks"@ {
        Some("https://riftdecks.com"@)
    } else {
        None
    }
}

/// A text up to its first `q`.
pub open spec fn before_char(s: Seq<char>, q: char) -> Seq<char> {
    match find(s, seq![q]) {
        Some(k) => s.take(k),
        None => s,
    }
}

/// Whether a path is a deck page of the site.
pub open spec fn deck_path(piltover: bool, path: Seq<char>) -> bool {
    if piltover {
        starts(path, "/decks/view/"@)
    } else {
        starts(path, "/riftbound-metagame/deck-"@) || starts(path, "/decks/view/"@)
    }
}

/// The deck a link of a result page names, if it names one: a quoted
/// `href` to a deck page of the site (at the site's origin or relative to
/// it), no longer than 1000 bytes and free of backslashes and line breaks,
/// with a title that is not empty.
pub open spec fn link_row(piltover: bool, origin: Seq<char>, chunk: Seq<char>) -> Option<(Seq<char>, Seq<char>)> {
    match split_once(chunk, seq!['>']) {
        None => None,
        Some((attrs, contents)) => match split_once(attrs, "href="@) {
            None => None,
            Some((_, rest)) => if rest.len() == 0 || !(rest[0] == '\'' || rest[0] == '"') {
                None
            } else {
                let href = before_char(rest.drop_first(), rest[0]);
                let path = if starts(href, origin) { href.skip(origin.len() as int) } else { href };
                if !deck_path(piltover, path) || vstd::utf8::encode_utf8(path).len() > 1000
                    || path.contains('\\') || path.contains('\r') || path.contains('\n') {
                    None
                } else {
                    let title = plain_text(split_text(contents, "</a>"@)[0]);
                    if title.len() == 0 {
                        None
                    } else {
                        Some((title, replaced(origin + path, "&amp;"@, "&"@)))
                    }
                }
            },
        },
    }
}

/// The decks the links name, in page order, each link once, and no more
/// than `LIMIT` of them.
pub open spec fn rows_found(piltover: bool, origin: Seq<char>, chunks: Seq<Seq<char>>) -> Seq<(Seq<char>, Seq<char>)>
    decreases chunks.len(),
{
    if chunks.len() == 0 {
        Seq::empty()
    } else {
        let before = rows_found(piltover, origin, chunks.drop_last());
        if before.len() >= LIMIT {
            before
        } else {
            match link_row(piltover, origin, chunks.last()) {
                None => before,
                Some(row) => if exists|j: int| 0 <= j < before.len() && (#[trigger] before[j]).1 == row.1 {
                    before
                } else {
                    before.push(row)
                },
            }
        }
    }
}

/// The results as plain values.
pub open spec fn results_view(v: Seq<SearchResult>) -> Seq<(Seq<char>, Seq<char>)> {
    v.map_values(|r: SearchResult| (r.title@, r.url@))
}

fn contains_char(s: &[char], c: char) -> (r: bool)
    ensures
        r == s@.contains(c),
{
    let mut i: usize = 0;
    while i < s.len()
        invariant
            i <= s@.len(),
            forall|j: int| 0 <= j < i ==> s@[j] != c,
        decreases s@.len() - i,
    {
        if s[i] == c {
            assert(s@[i as int] == c);
            return true;
        }
        i = i + 1;
    }
    false
}

fn link_row_of(piltover: bool, origin: &str, chunk: &[char]) -> (r: Option<SearchResult>)
    ensures
        match link_row(piltover, origin@, chunk@) {
            Some((t, u)) => r matches Some(x) && x.title@ == t && x.url@ == u,
            None => r is None,
        },
{
    let (attrs, contents) = match split_once_char(chunk, '>') {
        Some(parts) => parts,
        None => {
            return None;
        },
    };
    let href_key = chars_of("href=");
    let rest = match split_once_at(attrs.as_slice(), href_key.as_slice()) {
        Some((_, rest)) => rest,
        None => {
            return None;
        },
    };
    if rest.len() == 0 || !(rest[0] == '\'' || rest[0] == '"') {
        return None;
    }
    let q = rest[0];
    let after = slice(rest.as_slice(), 1, rest.len());
    assert(after@ =~= rest@.drop_first());
    let href = match find_char(after.as_slice(), q) {
        Some(k) => {
            proof {
                crate::text::lemma_find_from_bounds(after@, seq![q], 0);
            }
            slice(after.as_slice(), 0, k)
        },
        None => after,
    };
    assert(href@ =~= before_char(rest@.drop_first(), rest@[0]));
    let oc = chars_of(origin);
    let path = if crate::text::starts_with(href.as_slice(), oc.as_slice()) {
        let p = slice(href.as_slice(), oc.len(), href.len());
        assert(p@ =~= href@.skip(oc@.len() as int));
        p
    } else {
        href
    };
    let valid = if piltover {
        starts_with_str(path.as_slice(), "/decks/view/")
    } else {
        starts_with_str(path.as_slice(), "/riftbound-metagame/deck-") || starts_with_str(path.as_slice(), "/decks/view/")
    };
    if !valid {
        return None;
    }
    let path_text = string_of(path.as_slice());
    if path_text.as_str().as_bytes().len() > 1000 || contains_char(path.as_slice(), '\\') || contains_char(path.as_slice(), '\r')
        || contains_char(path.as_slice(), '\n') {
        return None;
    }
    let pieces = split_text_of(contents.as_slice(), "</a>");
    proof {
        lemma_split_text_nonempty(contents@, "</a>"@);
        assert(views(pieces@).len() == pieces@.len());
        assert(views(pieces@)[0] == pieces@[0]@);
    }
    let first = string_of(pieces[0].as_slice());
    let title = plain(first.as_str());
    if chars_of(title.as_str()).len() == 0 {
        return None;
    }
    let mut full = oc;
    extend(&mut full, path.as_slice());
    let url = replaced_of(full.as_slice(), "&amp;", "&");
    Some(SearchResult { title, url: string_of(url.as_slice()) })
}

/// The decks a search result page links to.
#[verifier::loop_isolation(false)]
pub fn parse_results(site: &str, body: &str) -> (r: Result<Vec<SearchResult>, String>)
    ensures
        match origin_of(site@) {
            None => r matches Err(e) && e@ == "Unknown deck site"@,
            Some(origin) => r matches Ok(rows) && results_view(rows@) == rows_found(
                site@ == "piltover"@,
                origin,
                split_text(body@, "<a "@).drop_first(),
            ),
        },
{
    let s = chars_of(site);
    let piltover = is(s.as_slice(), "piltover");
    let origin: &str = if piltover {
        "https://piltoverarchive.com"
    } else if is(s.as_slice(), "riftdecks") {
        "https://riftdecks.com"
    } else {
        return Err(string_of(chars_of("Unknown deck site").as_slice()));
    };
    let chunks = split_text_of(chars_of(body).as_slice(), "<a ");
    let ghost all = split_text(body@, "<a "@);
    let ghost cs = all.drop_first();
    let mut rows: Vec<SearchResult> = Vec::new();
    if chunks.len() == 0 {
        assert(cs =~= Seq::<Seq<char>>::empty());
        return Ok(rows);
    }
    let mut i: usize = 1;
    assert(cs.take(0) =~= Seq::<Seq<char>>::empty());
    assert(results_view(rows@) =~= Seq::<(Seq<char>, Seq<char>)>::empty());
    while i < chunks.len()
        invariant
            1 <= i <= chunks@.len(),
            views(chunks@) == all,
            cs == all.drop_first(),
            results_view(rows@) == rows_found(piltover, origin@, cs.take(i - 1)),
            rows@.len() <= LIMIT,
        decreases chunks@.len() - i,
    {
        assert(cs.take(i as int).drop_last() =~= cs.take(i - 1));
        assert(cs.take(i as int).last() == chunks@[i as int]@);
        if rows.len() >= LIMIT {
            break;
        }
        match link_row_of(piltover, origin, chunks[i].as_slice()) {
            None => {},
            Some(row) => {
                let mut seen = false;
                let mut j: usize = 0;
                while j < rows.len()
                    invariant
                        j <= rows@.len(),
                        seen == exists|k: int| 0 <= k < j && (#[trigger] results_view(rows@)[k]).1 == row.url@,
                    decreases rows@.len() - j,
                {
                    if rows[j].url == row.url {
                        assert(results_view(rows@)[j as int].1 == row.url@);
                        seen = true;
                    }
                    j = j + 1;
                }
                if !seen {
                    let ghost before = results_view(rows@);
                    rows.push(row);
                    assert(results_view(rows@) =~= before.push((row.title@, row.url@)));
                }
            },
        }
        i = i + 1;
    }
    proof {
        lemma_rows_found_stop(piltover, origin@, cs, i - 1);
    }
    Ok(rows)
}

proof fn lemma_split_text_nonempty(s: Seq<char>, p: Seq<char>)
    ensures
        split_text(s, p).len() >= 1,
{
}

proof fn lemma_rows_found_stop(piltover: bool, origin: Seq<char>, cs: Seq<Seq<char>>, k: int)
    requires
        0 <= k <= cs.len(),
        k < cs.len() ==> rows_found(piltover, origin, cs.take(k)).len() >= LIMIT,
    ensures
        rows_found(piltover, origin, cs) == rows_found(piltover, origin, cs.take(k)),
    decreases cs.len() - k,
{
    if k < cs.len() {
        assert(cs.take(k + 1).drop_last() =~= cs.take(k));
        lemma_rows_found_stop(piltover, origin, cs, k + 1);
    } else {
        assert(cs.take(k) =~= cs);
    }
}

} // verus!
