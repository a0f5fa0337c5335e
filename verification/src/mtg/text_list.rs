//! Magic text lists: Arena and MTGO exports, with their section headers,
//! `SB:` lines and set and collector suffixes.
use vstd::prelude::*;
use crate::deck::text_list::{entries_read, parse_text as parse_lines, text_read, TextError, TextVocabulary};
use crate::mtg::{Mtg, ParsedDeck, Section};
use crate::text::{
    chars_of, ends, ends_with_str, find, find_char, is, is_ascii_alnum, is_digit, is_upper, rfind,
    rfind_in, slice, starts, starts_with_str, string_of, trim, trim_end, trim_end_of, trim_of,
};

verus! {

/// The section a (lower-case) Magic header names.
pub open spec fn mtg_header(h: Seq<char>) -> Option<Section> {
    if h == "commander"@ || h == "commanders"@ {
        Some(Section::Commander)
    } else if h == "deck"@ || h == "main"@ || h == "main deck"@ || h == "maindeck"@ || h == "mainboard"@ {
        Some(Section::Main)
    } else if h == "side"@ || h == "sideboard"@ || h == "companion"@ {
        Some(Section::Sideboard)
    } else if h == "about"@ {
        Some(Section::Ignored)
    } else {
        None
    }
}

/// The headers a Magic list is written with, each with the section it opens.
pub open spec fn published_mtg_headers() -> Seq<(Seq<char>, Section)> {
    seq![
        ("commander"@, Section::Commander),
        ("commanders"@, Section::Commander),
        ("deck"@, Section::Main),
        ("main"@, Section::Main),
        ("main deck"@, Section::Main),
        ("maindeck"@, Section::Main),
        ("mainboard"@, Section::Main),
        ("side"@, Section::Sideboard),
        ("sideboard"@, Section::Sideboard),
        ("companion"@, Section::Sideboard),
        ("about"@, Section::Ignored),
    ]
}

/// Every header of the published list opens its section (an Arena `Companion` block is sideboard), and no other header opens one.
pub proof fn lemma_mtg_headers_open_their_sections()
    ensures
        forall|i: int| 0 <= i < published_mtg_headers().len() ==> #[trigger] mtg_header(published_mtg_headers()[i].0) == Some(published_mtg_headers()[i].1),
        forall|h: Seq<char>| (forall|i: int| 0 <= i < published_mtg_headers().len() ==> published_mtg_headers()[i].0 != h) ==> #[trigger] mtg_header(h) is None,
{
    reveal_strlit("commander");
    assert("commander"@.len() == 9 && "commander"@[0] == 'c' && "commander"@[1] == 'o' && "commander"@[2] == 'm' && "commander"@[3] == 'm' && "commander"@[4] == 'a' && "commander"@[5] == 'n' && "commander"@[6] == 'd' && "commander"@[7] == 'e' && "commander"@[8] == 'r');
    reveal_strlit("commanders");
    assert("commanders"@.len() == 10 && "commanders"@[0] == 'c' && "commanders"@[1] == 'o' && "commanders"@[2] == 'm' && "commanders"@[3] == 'm' && "commanders"@[4] == 'a' && "commanders"@[5] == 'n' && "commanders"@[6] == 'd' && "commanders"@[7] == 'e' && "commanders"@[8] == 'r' && "commanders"@[9] == 's');
    reveal_strlit("deck");
    assert("deck"@.len() == 4 && "deck"@[0] == 'd' && "deck"@[1] == 'e' && "deck"@[2] == 'c' && "deck"@[3] == 'k');
    reveal_strlit("main");
    assert("main"@.len() == 4 && "main"@[0] == 'm' && "main"@[1] == 'a' && "main"@[2] == 'i' && "main"@[3] == 'n');
    reveal_strlit("main deck");
    assert("main deck"@.len() == 9 && "main deck"@[0] == 'm' && "main deck"@[1] == 'a' && "main deck"@[2] == 'i' && "main deck"@[3] == 'n' && "main deck"@[4] == ' ' && "main deck"@[5] == 'd' && "main deck"@[6] == 'e' && "main deck"@[7] == 'c' && "main deck"@[8] == 'k');
    reveal_strlit("maindeck");
    assert("maindeck"@.len() == 8 && "maindeck"@[0] == 'm' && "maindeck"@[1] == 'a' && "maindeck"@[2] == 'i' && "maindeck"@[3] == 'n' && "maindeck"@[4] == 'd' && "maindeck"@[5] == 'e' && "maindeck"@[6] == 'c' && "maindeck"@[7] == 'k');
    reveal_strlit("mainboard");
    assert("mainboard"@.len() == 9 && "mainboard"@[0] == 'm' && "mainboard"@[1] == 'a' && "mainboard"@[2] == 'i' && "mainboard"@[3] == 'n' && "mainboard"@[4] == 'b' && "mainboard"@[5] == 'o' && "mainboard"@[6] == 'a' && "mainboard"@[7] == 'r' && "mainboard"@[8] == 'd');
    reveal_strlit("side");
    assert("side"@.len() == 4 && "side"@[0] == 's' && "side"@[1] == 'i' && "side"@[2] == 'd' && "side"@[3] == 'e');
    reveal_strlit("sideboard");
    assert("sideboard"@.len() == 9 && "sideboard"@[0] == 's' && "sideboard"@[1] == 'i' && "sideboard"@[2] == 'd' && "sideboard"@[3] == 'e' && "sideboard"@[4] == 'b' && "sideboard"@[5] == 'o' && "sideboard"@[6] == 'a' && "sideboard"@[7] == 'r' && "sideboard"@[8] == 'd');
    reveal_strlit("companion");
    assert("companion"@.len() == 9 && "companion"@[0] == 'c' && "companion"@[1] == 'o' && "companion"@[2] == 'm' && "companion"@[3] == 'p' && "companion"@[4] == 'a' && "companion"@[5] == 'n' && "companion"@[6] == 'i' && "companion"@[7] == 'o' && "companion"@[8] == 'n');
    reveal_strlit("about");
    assert("about"@.len() == 5 && "about"@[0] == 'a' && "about"@[1] == 'b' && "about"@[2] == 'o' && "about"@[3] == 'u' && "about"@[4] == 't');
    let t = published_mtg_headers();
    assert(mtg_header(t[0].0) == Some(t[0].1));
    assert(mtg_header(t[1].0) == Some(t[1].1));
    assert(mtg_header(t[2].0) == Some(t[2].1));
    assert(mtg_header(t[3].0) == Some(t[3].1));
    assert(mtg_header(t[4].0) == Some(t[4].1));
    assert(mtg_header(t[5].0) == Some(t[5].1));
    assert(mtg_header(t[6].0) == Some(t[6].1));
    assert(mtg_header(t[7].0) == Some(t[7].1));
    assert(mtg_header(t[8].0) == Some(t[8].1));
    assert(mtg_header(t[9].0) == Some(t[9].1));
    assert(mtg_header(t[10].0) == Some(t[10].1));
    assert forall|i: int| 0 <= i < t.len() implies #[trigger] mtg_header(t[i].0) == Some(t[i].1) by {}
    assert forall|h: Seq<char>| (forall|i: int| 0 <= i < t.len() ==> t[i].0 != h) implies #[trigger] mtg_header(h) is None by {
        assert(t[0].0 != h && t[1].0 != h && t[2].0 != h && t[3].0 != h && t[4].0 != h && t[5].0 != h && t[6].0 != h && t[7].0 != h && t[8].0 != h && t[9].0 != h && t[10].0 != h);
    }
}

/// A set code: two to six capital letters and digits.
pub open spec fn set_like(set: Seq<char>) -> bool {
    2 <= set.len() <= 6 && forall|i: int| 0 <= i < set.len() ==> is_upper(#[trigger] set[i]) || is_digit(set[i])
}

/// A collector number: nothing, or letters, digits and stars.
pub open spec fn collector_like(after: Seq<char>) -> bool {
    forall|i: int| 0 <= i < after.len() ==> is_ascii_alnum(#[trigger] after[i]) || after[i] == '★'
}

/// The name without a trailing `*F*` foil mark.
pub open spec fn unfoiled(t: Seq<char>) -> Seq<char> {
    trim_end(if ends(t, "*F*"@) { t.take(t.len() - 3) } else { t })
}

/// The name without an Arena ` (SET) 123` tail: the last ` (` opens a
/// set code, the first `)` after it closes it, and a collector number may
/// follow.
pub open spec fn set_stripped(name: Seq<char>) -> Seq<char> {
    let t = unfoiled(trim_end(name));
    match rfind(t, " ("@) {
        None => t,
        Some(open) => {
            let tail = t.skip(open + 2);
            match find(tail, seq![')']) {
                None => t,
                Some(close) => if set_like(tail.take(close)) && collector_like(trim(tail.skip(close + 1))) {
                    trim_end(t.take(open))
                } else {
                    t
                },
            }
        },
    }
}

fn set_like_of(s: &[char]) -> (r: bool)
    ensures
        r == set_like(s@),
{
    if s.len() < 2 || s.len() > 6 {
        return false;
    }
    let mut i: usize = 0;
    while i < s.len()
        invariant
            i <= s@.len(),
            forall|j: int| 0 <= j < i ==> is_upper(#[trigger] s@[j]) || is_digit(s@[j]),
        decreases s@.len() - i,
    {
        let c = s[i];
        if !(('A' <= c && c <= 'Z') || ('0' <= c && c <= '9')) {
            return false;
        }
        i = i + 1;
    }
    true
}

fn collector_like_of(s: &[char]) -> (r: bool)
    ensures
        r == collector_like(s@),
{
    let mut i: usize = 0;
    while i < s.len()
        invariant
            i <= s@.len(),
            forall|j: int| 0 <= j < i ==> is_ascii_alnum(#[trigger] s@[j]) || s@[j] == '★',
        decreases s@.len() - i,
    {
        let c = s[i];
        if !(crate::text::ascii_alnum(c) || c == '★') {
            return false;
        }
        i = i + 1;
    }
    true
}

/// Strips an Arena set and collector suffix and a foil mark from a name.
pub fn strip_set_suffix(name: &str) -> (r: String)
    ensures
        r@ == set_stripped(name@),
{
    proof {
        reveal_strlit("*F*");
        reveal_strlit(" (");
    }
    let cs = chars_of(name);
    let trimmed = trim_end_of(cs.as_slice());
    let unfoiled_name = if ends_with_str(trimmed.as_slice(), "*F*") {
        let cut = slice(trimmed.as_slice(), 0, trimmed.len() - 3);
        assert(cut@ =~= trimmed@.take(trimmed@.len() - 3));
        trim_end_of(cut.as_slice())
    } else {
        trim_end_of(trimmed.as_slice())
    };
    let t = unfoiled_name;
    let open_pat = chars_of(" (");
    let open = match rfind_in(t.as_slice(), open_pat.as_slice()) {
        Some(open) => open,
        None => {
            return string_of(t.as_slice());
        },
    };
    proof {
        assert(open_pat@ == " ("@);
        assert(" ("@.len() == 2);
        assert(rfind(t@, " ("@) == Some(open as int));
        crate::text::lemma_rfind_upto_bounds(t@, " ("@, t@.len() - 2);
        assert(crate::text::occurs_at(t@, " ("@, open as int));
    }
    let n = t.len();
    assert(open + 2 <= n);
    let tail = slice(t.as_slice(), open + 2, n);
    assert(tail@ =~= t@.skip(open + 2));
    let close = match find_char(tail.as_slice(), ')') {
        Some(close) => close,
        None => {
            return string_of(t.as_slice());
        },
    };
    proof {
        crate::text::lemma_find_from_bounds(tail@, seq![')'], 0);
    }
    let set = slice(tail.as_slice(), 0, close);
    assert(set@ =~= tail@.take(close as int));
    let after_raw = slice(tail.as_slice(), close + 1, tail.len());
    assert(after_raw@ =~= tail@.skip(close + 1));
    let after = trim_of(after_raw.as_slice());
    if set_like_of(set.as_slice()) && collector_like_of(after.as_slice()) {
        let front = slice(t.as_slice(), 0, open);
        assert(front@ =~= t@.take(open as int));
        let out = trim_end_of(front.as_slice());
        string_of(out.as_slice())
    } else {
        string_of(t.as_slice())
    }
}

/// An `SB:` or `SB ` line: the sideboard and the rest of the line.
pub open spec fn sideboard_line(line: Seq<char>) -> Option<(Seq<char>, Section)> {
    if starts(line, "SB:"@) || starts(line, "SB "@) {
        Some((line.skip(3), Section::Sideboard))
    } else {
        None
    }
}

impl TextVocabulary for Mtg {
    type Game = Mtg;

    open spec fn section_named(header: Seq<char>) -> Option<Section> {
        mtg_header(header)
    }

    open spec fn identifies(identifier: String, name: Seq<char>) -> bool {
        identifier@ == name
    }

    open spec fn inline_part(line: Seq<char>) -> Option<(Seq<char>, Section)> {
        sideboard_line(line)
    }

    open spec fn skipped(section: Section) -> bool {
        section == Section::Ignored
    }

    open spec fn clean(name: Seq<char>) -> Seq<char> {
        set_stripped(name)
    }

    fn section(header: &str) -> (r: Option<Section>) {
        let h = chars_of(header);
        let h = h.as_slice();
        if is(h, "commander") || is(h, "commanders") {
            Some(Section::Commander)
        } else if is(h, "deck") || is(h, "main") || is(h, "main deck") || is(h, "maindeck") || is(h, "mainboard") {
            Some(Section::Main)
        } else if is(h, "side") || is(h, "sideboard") || is(h, "companion") {
            Some(Section::Sideboard)
        } else if is(h, "about") {
            Some(Section::Ignored)
        } else {
            None
        }
    }

    fn identifier(name: &str) -> (r: String) {
        string_of(chars_of(name).as_slice())
    }

    fn inline_section(line: &str) -> (r: Option<(String, Section)>) {
        proof {
            reveal_strlit("SB:");
            reveal_strlit("SB ");
        }
        let cs = chars_of(line);
        if starts_with_str(cs.as_slice(), "SB:") || starts_with_str(cs.as_slice(), "SB ") {
            let rest = slice(cs.as_slice(), 3, cs.len());
            assert(rest@ =~= line@.skip(3));
            Some((string_of(rest.as_slice()), Section::Sideboard))
        } else {
            None
        }
    }

    fn skip(section: Section) -> (r: bool) {
        section == Section::Ignored
    }

    fn clean_name(name: &str) -> (r: String) {
        strip_set_suffix(name)
    }
}

/// Reads a Magic text list.
pub fn parse_text(input: &str) -> (r: Result<ParsedDeck, TextError>)
    ensures
        match text_read::<Mtg>(input@) {
            Ok(cards) => r matches Ok(deck) && entries_read::<Mtg>(deck.entries@, cards),
            Err(e) => r == Err::<ParsedDeck, TextError>(e),
        },
{
    parse_lines::<Mtg>(input)
}

} // verus!
