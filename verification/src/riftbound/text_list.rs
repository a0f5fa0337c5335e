//! Riftbound text lists: the section headers the sites write, names with a
//! bracketed card code, and lists pasted inside a code fence.
use vstd::prelude::*;
use crate::deck::text_list::{
    entries_read, lemma_blank_line_before, moved_down, parse_text as parse_lines, text_read,
    TextVocabulary,
};
use crate::riftbound::card_code::{code_of, code_of_id, CardCode};
use crate::naming::{lowercase_text, str_lowercase};
use crate::riftbound::catalog::{kind_of, CardKind};
use crate::riftbound::resolved::{same_text, DeckEntry, ResolvedCard, ResolvedDeck};
use crate::riftbound::{Identifier, ParsedDeck, Riftbound, Section};
use crate::snapshot::{key_less, key_lt, lemma_key_order_total, lemma_key_transitive};
use crate::text::{
    joined_lines, lemma_lines_of_joined, plain_line, chars_of, decimal, extend, push_decimal, find, find_in, find_str, is, is_ascii_alnum, lines, lines_of, rfind, rfind_char,
    slice, starts, string_of, trim, trim_end, trim_end_of, trim_of, trim_start, trim_start_of,
    views,
};

pub use crate::deck::text_list::TextError;

verus! {

pub const HEADER_LEGEND: &'static str = "Legend";
pub const HEADER_CHAMPION: &'static str = "Champion";
pub const HEADER_MAIN: &'static str = "MainDeck";
pub const HEADER_RUNES: &'static str = "Runes";
pub const HEADER_BATTLEFIELDS: &'static str = "Battlefields";
pub const HEADER_SIDEBOARD: &'static str = "Sideboard";

/// The section a lower-case header names.
pub open spec fn header_section(h: Seq<char>) -> Option<Section> {
    if h == "legend"@ || h == "legends"@ {
        Some(Section::Legend)
    } else if h == "champion"@ || h == "chosen champion"@ || h == "champions"@ {
        Some(Section::Champion)
    } else if h == "deck"@ || h == "main"@ || h == "main deck"@ || h == "maindeck"@ || h == "mainboard"@ {
        Some(Section::Main)
    } else if h == "rune"@ || h == "runes"@ || h == "rune deck"@ {
        Some(Section::Runes)
    } else if h == "battlefield"@ || h == "battlefields"@ {
        Some(Section::Battlefields)
    } else if h == "side"@ || h == "sideboard"@ {
        Some(Section::Sideboard)
    } else {
        None
    }
}

/// The headers a Riftbound list is written with, each with the section it opens.
pub open spec fn published_headers() -> Seq<(Seq<char>, Section)> {
    seq![
        ("legend"@, Section::Legend),
        ("legends"@, Section::Legend),
        ("champion"@, Section::Champion),
        ("chosen champion"@, Section::Champion),
        ("champions"@, Section::Champion),
        ("deck"@, Section::Main),
        ("main"@, Section::Main),
        ("main deck"@, Section::Main),
        ("maindeck"@, Section::Main),
        ("mainboard"@, Section::Main),
        ("rune"@, Section::Runes),
        ("runes"@, Section::Runes),
        ("rune deck"@, Section::Runes),
        ("battlefield"@, Section::Battlefields),
        ("battlefields"@, Section::Battlefields),
        ("side"@, Section::Sideboard),
        ("sideboard"@, Section::Sideboard),
    ]
}

/// Every header of the published list opens its section (the champion's headers, `chosen champion` among them, open the chosen-champion section), and no other header opens one.
pub proof fn lemma_headers_open_their_sections()
    ensures
        forall|i: int| 0 <= i < published_headers().len() ==> #[trigger] header_section(published_headers()[i].0) == Some(published_headers()[i].1),
        forall|h: Seq<char>| (forall|i: int| 0 <= i < published_headers().len() ==> published_headers()[i].0 != h) ==> #[trigger] header_section(h) is None,
{
    reveal_strlit("legend");
    assert("legend"@.len() == 6 && "legend"@[0] == 'l' && "legend"@[1] == 'e' && "legend"@[2] == 'g' && "legend"@[3] == 'e' && "legend"@[4] == 'n' && "legend"@[5] == 'd');
    reveal_strlit("legends");
    assert("legends"@.len() == 7 && "legends"@[0] == 'l' && "legends"@[1] == 'e' && "legends"@[2] == 'g' && "legends"@[3] == 'e' && "legends"@[4] == 'n' && "legends"@[5] == 'd' && "legends"@[6] == 's');
    reveal_strlit("champion");
    assert("champion"@.len() == 8 && "champion"@[0] == 'c' && "champion"@[1] == 'h' && "champion"@[2] == 'a' && "champion"@[3] == 'm' && "champion"@[4] == 'p' && "champion"@[5] == 'i' && "champion"@[6] == 'o' && "champion"@[7] == 'n');
    reveal_strlit("chosen champion");
    assert("chosen champion"@.len() == 15 && "chosen champion"@[0] == 'c' && "chosen champion"@[1] == 'h' && "chosen champion"@[2] == 'o' && "chosen champion"@[3] == 's' && "chosen champion"@[4] == 'e' && "chosen champion"@[5] == 'n' && "chosen champion"@[6] == ' ' && "chosen champion"@[7] == 'c' && "chosen champion"@[8] == 'h' && "chosen champion"@[9] == 'a' && "chosen champion"@[10] == 'm' && "chosen champion"@[11] == 'p' && "chosen champion"@[12] == 'i' && "chosen champion"@[13] == 'o' && "chosen champion"@[14] == 'n');
    reveal_strlit("champions");
    assert("champions"@.len() == 9 && "champions"@[0] == 'c' && "champions"@[1] == 'h' && "champions"@[2] == 'a' && "champions"@[3] == 'm' && "champions"@[4] == 'p' && "champions"@[5] == 'i' && "champions"@[6] == 'o' && "champions"@[7] == 'n' && "champions"@[8] == 's');
    reveal_strlit("deck");
    assert("deck"@.len() == 4 && "deck"@[0] == 'd' && "deck"@[1] == 'e' && "deck"@[2] == 'c' && "deck"@[3] == 'k');
    reveal_strlit("main");
    assert("main"@.len() == 4 && "main"@[0] == 'm' && "main"@[1] == 'a' && "main"@[2] == 'i' && "main"@[3] == 'n');
    reveal_strlit("main deck");
    assert("main deck"@.len() == 9 && "main deck"@[0] == 'm' && "main deck"@[1] == 'a' && "main deck"@[2] == 'i' && "main deck"@[3] == 'n' && "main deck"@[4] == ' ' && "main deck"@[5] == 'd' && "main deck"@[6] == 'e' && "main deck"@[7] == 'c' && "main deck"@[8] == 'k');
    reveal_strlit("maindeck");
    assert("maindeck"@.len() == 8 && "maindeck"@[0] == 'm' && "maindeck"@[1] == 'a' && "maindeck"@[2] == 'i' && "maindeck"@[3] == 'n' && "maindeck"@[4] == 'd' && "maindeck"@[5] == 'e' && "maindeck"@[6] == 'c' && "maindeck"@[7] == 'k');
    reveal_strlit("mainboard");
    assert("mainboard"@.len() == 9 && "mainboard"@[0] == 'm' && "mainboard"@[1] == 'a' && "mainboard"@[2] == 'i' && "mainboard"@[3] == 'n' && "mainboard"@[4] == 'b' && "mainboard"@[5] == 'o' && "mainboard"@[6] == 'a' && "mainboard"@[7] == 'r' && "mainboard"@[8] == 'd');
    reveal_strlit("rune");
    assert("rune"@.len() == 4 && "rune"@[0] == 'r' && "rune"@[1] == 'u' && "rune"@[2] == 'n' && "rune"@[3] == 'e');
    reveal_strlit("runes");
    assert("runes"@.len() == 5 && "runes"@[0] == 'r' && "runes"@[1] == 'u' && "runes"@[2] == 'n' && "runes"@[3] == 'e' && "runes"@[4] == 's');
    reveal_strlit("rune deck");
    assert("rune deck"@.len() == 9 && "rune deck"@[0] == 'r' && "rune deck"@[1] == 'u' && "rune deck"@[2] == 'n' && "rune deck"@[3] == 'e' && "rune deck"@[4] == ' ' && "rune deck"@[5] == 'd' && "rune deck"@[6] == 'e' && "rune deck"@[7] == 'c' && "rune deck"@[8] == 'k');
    reveal_strlit("battlefield");
    assert("battlefield"@.len() == 11 && "battlefield"@[0] == 'b' && "battlefield"@[1] == 'a' && "battlefield"@[2] == 't' && "battlefield"@[3] == 't' && "battlefield"@[4] == 'l' && "battlefield"@[5] == 'e' && "battlefield"@[6] == 'f' && "battlefield"@[7] == 'i' && "battlefield"@[8] == 'e' && "battlefield"@[9] == 'l' && "battlefield"@[10] == 'd');
    reveal_strlit("battlefields");
    assert("battlefields"@.len() == 12 && "battlefields"@[0] == 'b' && "battlefields"@[1] == 'a' && "battlefields"@[2] == 't' && "battlefields"@[3] == 't' && "battlefields"@[4] == 'l' && "battlefields"@[5] == 'e' && "battlefields"@[6] == 'f' && "battlefields"@[7] == 'i' && "battlefields"@[8] == 'e' && "battlefields"@[9] == 'l' && "battlefields"@[10] == 'd' && "battlefields"@[11] == 's');
    reveal_strlit("side");
    assert("side"@.len() == 4 && "side"@[0] == 's' && "side"@[1] == 'i' && "side"@[2] == 'd' && "side"@[3] == 'e');
    reveal_strlit("sideboard");
    assert("sideboard"@.len() == 9 && "sideboard"@[0] == 's' && "sideboard"@[1] == 'i' && "sideboard"@[2] == 'd' && "sideboard"@[3] == 'e' && "sideboard"@[4] == 'b' && "sideboard"@[5] == 'o' && "sideboard"@[6] == 'a' && "sideboard"@[7] == 'r' && "sideboard"@[8] == 'd');
    let t = published_headers();
    assert(header_section(t[0].0) == Some(t[0].1));
    assert(header_section(t[1].0) == Some(t[1].1));
    assert(header_section(t[2].0) == Some(t[2].1));
    assert(header_section(t[3].0) == Some(t[3].1));
    assert(header_section(t[4].0) == Some(t[4].1));
    assert(header_section(t[5].0) == Some(t[5].1));
    assert(header_section(t[6].0) == Some(t[6].1));
    assert(header_section(t[7].0) == Some(t[7].1));
    assert(header_section(t[8].0) == Some(t[8].1));
    assert(header_section(t[9].0) == Some(t[9].1));
    assert(header_section(t[10].0) == Some(t[10].1));
    assert(header_section(t[11].0) == Some(t[11].1));
    assert(header_section(t[12].0) == Some(t[12].1));
    assert(header_section(t[13].0) == Some(t[13].1));
    assert(header_section(t[14].0) == Some(t[14].1));
    assert(header_section(t[15].0) == Some(t[15].1));
    assert(header_section(t[16].0) == Some(t[16].1));
    assert forall|i: int| 0 <= i < t.len() implies #[trigger] header_section(t[i].0) == Some(t[i].1) by {}
    assert forall|h: Seq<char>| (forall|i: int| 0 <= i < t.len() ==> t[i].0 != h) implies #[trigger] header_section(h) is None by {
        assert(t[0].0 != h && t[1].0 != h && t[2].0 != h && t[3].0 != h && t[4].0 != h && t[5].0 != h && t[6].0 != h && t[7].0 != h && t[8].0 != h && t[9].0 != h && t[10].0 != h && t[11].0 != h && t[12].0 != h && t[13].0 != h && t[14].0 != h && t[15].0 != h && t[16].0 != h);
    }
}

/// A character a bracketed code may hold.
pub open spec fn code_char(c: char) -> bool {
    is_ascii_alnum(c) || c == '-' || c == '*'
}

/// A name with a trailing `[CODE]`: the name before it and the code, or the
/// name alone.
pub open spec fn bracket_split(name: Seq<char>) -> (Seq<char>, Option<Seq<char>>) {
    let trimmed = trim_end(name);
    match rfind(trimmed, seq!['[']) {
        None => (name, None),
        Some(open) => {
            let after = trimmed.skip(open + 1);
            if after.len() > 0 && after.last() == ']' {
                let inner = trim(after.drop_last());
                if inner.len() > 0 && forall|i: int| 0 <= i < inner.len() ==> code_char(#[trigger] inner[i]) {
                    (trim_end(trimmed.take(open)), Some(inner))
                } else {
                    (name, None)
                }
            } else {
                (name, None)
            }
        },
    }
}

fn all_code_chars(s: &[char]) -> (r: bool)
    ensures
        r == forall|i: int| 0 <= i < s@.len() ==> code_char(#[trigger] s@[i]),
{
    let mut i: usize = 0;
    while i < s.len()
        invariant
            i <= s@.len(),
            forall|j: int| 0 <= j < i ==> code_char(#[trigger] s@[j]),
        decreases s@.len() - i,
    {
        let c = s[i];
        if !(crate::text::ascii_alnum(c) || c == '-' || c == '*') {
            return false;
        }
        i = i + 1;
    }
    true
}

/// Splits a trailing `[CODE]` off a card name.
pub fn split_bracketed_code(name: &str) -> (r: (String, Option<String>))
    ensures
        r.0@ == bracket_split(name@).0,
        match bracket_split(name@).1 {
            Some(code) => r.1 matches Some(c) && c@ == code,
            None => r.1 is None,
        },
{
    let cs = chars_of(name);
    let trimmed = trim_end_of(cs.as_slice());
    let n = trimmed.len();
    match rfind_char(trimmed.as_slice(), '[') {
        None => (name.to_owned(), None),
        Some(open) => {
            proof {
                crate::text::lemma_rfind_upto_bounds(trimmed@, seq!['['], trimmed@.len() - 1);
            }
            let after = slice(trimmed.as_slice(), open + 1, n);
            assert(after@ =~= trimmed@.skip(open + 1));
            let m = after.len();
            if m > 0 && after[m - 1] == ']' {
                let body = slice(after.as_slice(), 0, m - 1);
                assert(body@ =~= after@.drop_last());
                let inner = trim_of(body.as_slice());
                if inner.len() > 0 && all_code_chars(inner.as_slice()) {
                    let head = slice(trimmed.as_slice(), 0, open);
                    assert(head@ =~= trimmed@.take(open as int));
                    let head = trim_end_of(head.as_slice());
                    (string_of(head.as_slice()), Some(string_of(inner.as_slice())))
                } else {
                    (name.to_owned(), None)
                }
            } else {
                (name.to_owned(), None)
            }
        },
    }
}

impl TextVocabulary for Riftbound {
    type Game = Riftbound;

    open spec fn section_named(header: Seq<char>) -> Option<Section> {
        header_section(header)
    }

    open spec fn identifies(identifier: Identifier, name: Seq<char>) -> bool {
        name_identifier_is(identifier, name)
    }

    open spec fn inline_part(line: Seq<char>) -> Option<(Seq<char>, Section)> {
        None
    }

    open spec fn skipped(section: Section) -> bool {
        false
    }

    open spec fn clean(name: Seq<char>) -> Seq<char> {
        name
    }

    fn inline_section(line: &str) -> (r: Option<(String, Section)>) {
        None
    }

    fn skip(section: Section) -> (r: bool) {
        false
    }

    fn clean_name(name: &str) -> (r: String) {
        string_of(chars_of(name).as_slice())
    }

    fn section(header: &str) -> (r: Option<Section>)
        ensures
            r == header_section(header@),
    {
        let h = chars_of(header);
        let h = h.as_slice();
        if is(h, "legend") || is(h, "legends") {
            Some(Section::Legend)
        } else if is(h, "champion") || is(h, "chosen champion") || is(h, "champions") {
            Some(Section::Champion)
        } else if is(h, "deck") || is(h, "main") || is(h, "main deck") || is(h, "maindeck") || is(h, "mainboard") {
            Some(Section::Main)
        } else if is(h, "rune") || is(h, "runes") || is(h, "rune deck") {
            Some(Section::Runes)
        } else if is(h, "battlefield") || is(h, "battlefields") {
            Some(Section::Battlefields)
        } else if is(h, "side") || is(h, "sideboard") {
            Some(Section::Sideboard)
        } else {
            None
        }
    }

    fn identifier(name: &str) -> (r: Identifier)
        ensures
            name_identifier_is(r, name@),
    {
        let (head, bracketed) = split_bracketed_code(name);
        match bracketed {
            Some(code_text) => match CardCode::parse(code_text.as_str()) {
                Ok(code) => {
                    return Identifier::Code(code);
                },
                Err(_) => {},
            },
            None => {},
        }
        match CardCode::from_riftbound_id(head.as_str()) {
            Ok(code) => Identifier::Code(code),
            Err(_) => Identifier::Name(head),
        }
    }
}

/// The identifier a list line's name stands for: its bracketed code, else
/// the name read as a catalog id, else the name.
pub open spec fn name_identifier_is(r: Identifier, name: Seq<char>) -> bool {
    let (head, bracketed) = bracket_split(name);
    match bracketed {
        Some(b) if code_of(b) is Some => r == Identifier::Code(code_of(b)->Some_0),
        _ => match code_of_id(head) {
            Ok(c) => r == Identifier::Code(c),
            Err(_) => r matches Identifier::Name(n) && n@ == head,
        },
    }
}

/// A line that opens or closes a code fence.
pub open spec fn fence(line: Seq<char>) -> bool {
    starts(trim_start(line), seq!['`', '`', '`'])
}

/// A fence line emptied; any other line kept.
pub open spec fn unfence(l: Seq<char>) -> Seq<char> {
    if fence(l) {
        Seq::empty()
    } else {
        l
    }
}

/// The text with every fence line emptied.
pub open spec fn unfenced(input: Seq<char>) -> Seq<char> {
    joined_lines(lines(input).map_values(|l: Seq<char>| unfence(l)))
}

/// Whether any line of the text opens or closes a code fence.
pub open spec fn has_fence(input: Seq<char>) -> bool {
    exists|i: int| 0 <= i < lines(input).len() && fence(#[trigger] lines(input)[i])
}

/// The list a pasted text holds: with a code fence, the text with its fence
/// lines emptied; otherwise the text itself.
pub open spec fn list_body(input: Seq<char>) -> Seq<char> {
    if has_fence(input) {
        unfenced(input)
    } else {
        input
    }
}

/// A list pasted whole inside a code fence reads as the list itself: when
/// the text's lines are a fence line, the list's lines (none of them a fence
/// line, a line feed or a trailing carriage return in them) and a fence
/// line, it gives the list's cards, and any refusal one line further down.
pub proof fn lemma_fenced_text_reads_as_body(input: Seq<char>, body: Seq<char>)
    requires
        lines(input).len() >= 2,
        fence(lines(input)[0]),
        fence(lines(input).last()),
        lines(input).subrange(1, lines(input).len() - 1) == lines(body),
        forall|i: int| 0 <= i < lines(body).len() ==> !fence(#[trigger] lines(body)[i]),
        forall|i: int| 0 <= i < lines(body).len() ==> plain_line(#[trigger] lines(body)[i]),
        lines(body).len() + 2 <= usize::MAX,
    ensures
        text_read::<Riftbound>(list_body(input)) == match text_read::<Riftbound>(body) {
            Ok(c) => Ok(c),
            Err(e) => Err(moved_down(e)),
        },
{
    let l = lines(input);
    let b = lines(body);
    let blank = Seq::<char>::empty();
    assert(has_fence(input)) by {
        assert(fence(l[0]));
    }
    assert(l =~= seq![l[0]] + b + seq![l.last()]) by {
        assert forall|i: int| 0 <= i < l.len() implies l[i] == (seq![l[0]] + b + seq![l.last()])[i] by {
            if i > 0 && i < l.len() - 1 {
                assert(b[i - 1] == l.subrange(1, l.len() - 1)[i - 1]);
            }
        }
    }
    let m = l.map_values(|x: Seq<char>| unfence(x));
    assert(m =~= (seq![blank] + b).push(blank)) by {
        assert forall|i: int| 0 <= i < m.len() implies m[i] == ((seq![blank] + b).push(blank))[i] by {
            if i > 0 && i < l.len() - 1 {
                assert(l[i] == b[i - 1]);
            }
            if i == l.len() - 1 {
                assert(l[i] == l.last());
            }
        }
    }
    assert forall|i: int| 0 <= i < m.len() implies plain_line(#[trigger] m[i]) by {
        if i > 0 && i < m.len() - 1 {
            assert(m[i] == b[i - 1]);
        }
    }
    lemma_lines_of_joined(m);
    assert(m.drop_last() =~= seq![blank] + b);
    lemma_blank_line_before::<Riftbound>(b);
}

fn is_fence(line: &[char]) -> (r: bool)
    ensures
        r == fence(line@),
{
    let t = trim_start_of(line);
    let r = t.len() >= 3 && t[0] == '`' && t[1] == '`' && t[2] == '`';
    proof {
        if t@.len() >= 3 {
            assert(t@.take(3) =~= seq![t@[0], t@[1], t@[2]]);
        }
    }
    r
}

/// Reads a Riftbound text list; a list pasted inside a code fence reads as
/// its body.
pub fn parse_text(input: &str) -> (r: Result<ParsedDeck, TextError>)
    ensures
        match text_read::<Riftbound>(list_body(input@)) {
            Ok(cards) => r matches Ok(deck) && entries_read::<Riftbound>(deck.entries@, cards),
            Err(e) => r == Err::<ParsedDeck, TextError>(e),
        },
{
    let cs = chars_of(input);
    let ls = lines_of(cs.as_slice());
    let ghost all = lines(input@);
    let mut any_fence = false;
    let mut i: usize = 0;
    while i < ls.len()
        invariant
            i <= ls@.len(),
            views(ls@) == all,
            any_fence == exists|j: int| 0 <= j < i && fence(#[trigger] all[j]),
        decreases ls@.len() - i,
    {
        assert(ls@[i as int]@ == all[i as int]);
        if is_fence(ls[i].as_slice()) {
            any_fence = true;
        }
        i = i + 1;
    }
    if !any_fence {
        return parse_lines::<Riftbound>(input);
    }
    let ghost mapped = all.map_values(|l: Seq<char>| unfence(l));
    let mut out: Vec<char> = Vec::new();
    let mut k: usize = 0;
    assert(mapped.take(0) =~= Seq::<Seq<char>>::empty());
    while k < ls.len()
        invariant
            k <= ls@.len(),
            views(ls@) == all,
            mapped == all.map_values(|l: Seq<char>| unfence(l)),
            out@ == joined_lines(mapped.take(k as int)),
        decreases ls@.len() - k,
    {
        assert(ls@[k as int]@ == all[k as int]);
        assert(mapped.take(k as int + 1).drop_last() =~= mapped.take(k as int));
        assert(mapped.take(k as int + 1).last() == unfence(all[k as int]));
        if k > 0 {
            out.push('\n');
        }
        if !is_fence(ls[k].as_slice()) {
            crate::text::extend(&mut out, ls[k].as_slice());
        }
        k = k + 1;
        proof {
            let t = mapped.take(k as int);
            if k == 1 {
                assert(t.drop_last() =~= Seq::<Seq<char>>::empty());
                assert(out@ =~= t[0]);
            } else {
                assert(out@ =~= joined_lines(t.drop_last()) + seq!['\n'] + t.last());
            }
        }
    }
    assert(mapped.take(k as int) =~= mapped);
    let text = string_of(out.as_slice());
    parse_lines::<Riftbound>(text.as_str())
}

/// `s` without line feeds at either end.
pub open spec fn trim_newlines(s: Seq<char>) -> Seq<char>
    decreases s.len(),
{
    if s.len() > 0 && s[0] == '\n' {
        trim_newlines(s.drop_first())
    } else if s.len() > 0 && s.last() == '\n' {
        trim_newlines(s.drop_last())
    } else {
        s
    }
}

fn trim_newlines_of(s: &[char]) -> (r: Vec<char>)
    ensures
        r@ == trim_newlines(s@),
{
    let mut a: usize = 0;
    let mut b: usize = s.len();
    assert(s@.subrange(0, s@.len() as int) =~= s@);
    while a < b && (s[a] == '\n' || s[b - 1] == '\n')
        invariant
            a <= b <= s@.len(),
            trim_newlines(s@) == trim_newlines(s@.subrange(a as int, b as int)),
        decreases b - a,
    {
        if s[a] == '\n' {
            assert(s@.subrange(a as int, b as int).drop_first() =~= s@.subrange(a + 1, b as int));
            a = a + 1;
        } else {
            assert(s@.subrange(a as int, b as int).drop_last() =~= s@.subrange(a as int, b - 1));
            b = b - 1;
        }
    }
    slice(s, a, b)
}

/// What `deck_block` reads from a document.
pub open spec fn deck_block_of(m: Seq<char>) -> Option<Seq<char>> {
    match find(m, "## Deck"@) {
        None => None,
        Some(at) => {
            let rest = m.skip(at + 7);
            let section = match find(rest, "\n## "@) {
                Some(next) => rest.take(next),
                None => rest,
            };
            match find(section, "```"@) {
                None => None,
                Some(open) => {
                    let after = section.skip(open + 3);
                    match find(after, seq!['\n']) {
                        None => None,
                        Some(b) => {
                            let body = after.skip(b + 1);
                            match find(body, "```"@) {
                                None => None,
                                Some(close) => Some(trim_newlines(body.take(close))),
                            }
                        },
                    }
                },
            }
        },
    }
}

/// The body of the first code fence under a `## Deck` heading, without
/// its surrounding line feeds.
pub fn deck_block(markdown: &str) -> (r: Option<String>)
    ensures
        match deck_block_of(markdown@) {
            Some(b) => r matches Some(s) && s@ == b,
            None => r is None,
        },
{
    proof {
        reveal_strlit("## Deck");
        reveal_strlit("\n## ");
        reveal_strlit("```");
    }
    let cs = chars_of(markdown);
    let heading = chars_of("## Deck");
    assert(heading@.len() == 7);
    let at = match find_in(cs.as_slice(), heading.as_slice()) {
        Some(at) => at,
        None => {
            return None;
        },
    };
    proof {
        crate::text::lemma_find_from_bounds(cs@, heading@, 0);
    }
    let cl = cs.len();
    assert(at + 7 <= cl);
    let rest = slice(cs.as_slice(), at + 7, cl);
    assert(rest@ =~= cs@.skip(at + 7));
    let section = match find_str(rest.as_slice(), "\n## ") {
        Some(next) => {
            proof {
                crate::text::lemma_find_from_bounds(rest@, "\n## "@, 0);
            }
            let t = slice(rest.as_slice(), 0, next);
            assert(t@ =~= rest@.take(next as int));
            t
        },
        None => rest,
    };
    let open = match find_str(section.as_slice(), "```") {
        Some(open) => open,
        None => {
            return None;
        },
    };
    proof {
        crate::text::lemma_find_from_bounds(section@, "```"@, 0);
    }
    let after = slice(section.as_slice(), open + 3, section.len());
    assert(after@ =~= section@.skip(open + 3));
    let b = match crate::text::find_char(after.as_slice(), '\n') {
        Some(b) => b,
        None => {
            return None;
        },
    };
    proof {
        crate::text::lemma_find_from_bounds(after@, seq!['\n'], 0);
    }
    let body = slice(after.as_slice(), b + 1, after.len());
    assert(body@ =~= after@.skip(b + 1));
    let close = match find_str(body.as_slice(), "```") {
        Some(c) => c,
        None => {
            return None;
        },
    };
    proof {
        crate::text::lemma_find_from_bounds(body@, "```"@, 0);
    }
    let block = slice(body.as_slice(), 0, close);
    assert(block@ =~= body@.take(close as int));
    Some(string_of(trim_newlines_of(block.as_slice()).as_slice()))
}

// ---------------------------------------------------------------------------
// Rendering a resolved deck
// ---------------------------------------------------------------------------

/// Where a card's kind sorts: units, spells, gear, legends, runes,
/// battlefields, then anything else.
pub open spec fn kind_rank(card: ResolvedCard) -> u8 {
    match card.kind {
        None => 6,
        Some(k) => match kind_of(k@) {
            CardKind::Unit => 0,
            CardKind::Spell => 1,
            CardKind::Gear => 2,
            CardKind::Legend => 3,
            CardKind::Rune => 4,
            CardKind::Battlefield => 5,
            CardKind::Other => 6,
        },
    }
}

/// What a list sorts a card by: its kind's rank, its energy (none last),
/// its lower-cased name, then its catalog id.
pub type SortKey = (u8, u8, Seq<char>, Seq<char>);

pub open spec fn sort_key(card: ResolvedCard) -> SortKey {
    (
        kind_rank(card),
        match card.energy {
            Some(e) => e,
            None => 255u8,
        },
        str_lowercase(card.name@),
        card.riftbound_id@,
    )
}

/// Whether key `a` sorts strictly before key `b`.
pub open spec fn key_before(a: SortKey, b: SortKey) -> bool {
    a.0 < b.0 || (a.0 == b.0 && (a.1 < b.1 || (a.1 == b.1 && (key_lt(a.2, b.2) || (a.2 == b.2 && key_lt(a.3, b.3))))))
}

/// The entries put in sort order, entries of one key in the order they
/// came: `p` lists each position of the entries once, keys never fall
/// along it, and positions of one key rise.
pub open spec fn sorted_as(entries: Seq<DeckEntry>, p: Seq<int>) -> bool {
    &&& p.len() == entries.len()
    &&& forall|a: int| 0 <= a < p.len() ==> 0 <= #[trigger] p[a] < entries.len()
    &&& forall|a: int, b: int| 0 <= a < b < p.len() ==> #[trigger] p[a] != #[trigger] p[b]
    &&& forall|a: int, b: int| 0 <= a < b < p.len() ==> !key_before(sort_key(entries[#[trigger] p[b]].card), sort_key(entries[#[trigger] p[a]].card))
    &&& forall|a: int, b: int| 0 <= a < b < p.len() && sort_key(entries[#[trigger] p[a]].card) == sort_key(entries[#[trigger] p[b]].card) ==> p[a] < p[b]
}

proof fn lemma_key_lt_irreflexive(a: Seq<char>)
    ensures
        !key_lt(a, a),
    decreases a.len(),
{
    if a.len() > 0 {
        lemma_key_lt_irreflexive(a.drop_first());
    }
}

proof fn lemma_key_lt_asymmetric(a: Seq<char>, b: Seq<char>)
    ensures
        !(key_lt(a, b) && key_lt(b, a)),
{
    if key_lt(a, b) && key_lt(b, a) {
        lemma_key_transitive(a, b, a);
        lemma_key_lt_irreflexive(a);
    }
}

proof fn lemma_before_facts(a: SortKey, b: SortKey, c: SortKey)
    ensures
        !key_before(a, a),
        !(key_before(a, b) && key_before(b, a)),
        key_before(a, b) && key_before(b, c) ==> key_before(a, c),
        a != b ==> key_before(a, b) || key_before(b, a),
{
    lemma_key_lt_irreflexive(a.2);
    lemma_key_lt_irreflexive(a.3);
    lemma_key_lt_asymmetric(a.2, b.2);
    lemma_key_lt_asymmetric(a.3, b.3);
    if key_lt(a.2, b.2) && key_lt(b.2, c.2) {
        lemma_key_transitive(a.2, b.2, c.2);
    }
    if key_lt(a.3, b.3) && key_lt(b.3, c.3) {
        lemma_key_transitive(a.3, b.3, c.3);
    }
    if a.2 != b.2 {
        lemma_key_order_total(a.2, b.2);
    }
    if a.3 != b.3 {
        lemma_key_order_total(a.3, b.3);
    }
}

fn sort_key_of(card: &ResolvedCard) -> (r: (u8, u8, Vec<char>, Vec<char>))
    ensures
        (r.0, r.1, r.2@, r.3@) == sort_key(*card),
{
    let rank: u8 = match &card.kind {
        None => 6,
        Some(k) => match CardKind::parse(k.as_str()) {
            CardKind::Unit => 0,
            CardKind::Spell => 1,
            CardKind::Gear => 2,
            CardKind::Legend => 3,
            CardKind::Rune => 4,
            CardKind::Battlefield => 5,
            CardKind::Other => 6,
        },
    };
    let energy: u8 = match card.energy {
        Some(e) => e,
        None => 255,
    };
    let name = chars_of(lowercase_text(card.name.as_str()).as_str());
    let id = chars_of(card.riftbound_id.as_str());
    (rank, energy, name, id)
}

fn before(a: &(u8, u8, Vec<char>, Vec<char>), b: &(u8, u8, Vec<char>, Vec<char>)) -> (r: bool)
    ensures
        r == key_before((a.0, a.1, a.2@, a.3@), (b.0, b.1, b.2@, b.3@)),
{
    if a.0 != b.0 {
        return a.0 < b.0;
    }
    if a.1 != b.1 {
        return a.1 < b.1;
    }
    if key_less(a.2.as_slice(), b.2.as_slice()) {
        return true;
    }
    if !crate::text::same(a.2.as_slice(), b.2.as_slice()) {
        return false;
    }
    key_less(a.3.as_slice(), b.3.as_slice())
}

/// The positions of the entries in sort order: by kind, energy, lower-cased
/// name and catalog id, entries of one key in the order they came.
pub fn order_of(entries: &[DeckEntry]) -> (r: Vec<usize>)
    ensures
        sorted_as(entries@, r@.map_values(|i: usize| i as int)),
{
    let mut keys: Vec<(u8, u8, Vec<char>, Vec<char>)> = Vec::new();
    let mut k: usize = 0;
    while k < entries.len()
        invariant
            k <= entries@.len(),
            keys@.len() == k,
            forall|x: int| 0 <= x < k ==> ((#[trigger] keys@[x]).0, keys@[x].1, keys@[x].2@, keys@[x].3@) == sort_key(entries@[x].card),
        decreases entries@.len() - k,
    {
        keys.push(sort_key_of(&entries[k].card));
        k = k + 1;
    }
    let mut out: Vec<usize> = Vec::new();
    let mut i: usize = 0;
    while i < entries.len()
        invariant
            i <= entries@.len(),
            keys@.len() == entries@.len(),
            forall|x: int| 0 <= x < entries@.len() ==> ((#[trigger] keys@[x]).0, keys@[x].1, keys@[x].2@, keys@[x].3@) == sort_key(entries@[x].card),
            out@.len() == i,
            forall|a: int| 0 <= a < out@.len() ==> (#[trigger] out@[a]) < i,
            forall|a: int, b: int| 0 <= a < b < out@.len() ==> #[trigger] out@[a] != #[trigger] out@[b],
            forall|a: int, b: int| 0 <= a < b < out@.len() ==> !key_before(sort_key(entries@[#[trigger] out@[b] as int].card), sort_key(entries@[#[trigger] out@[a] as int].card)),
            forall|a: int, b: int| 0 <= a < b < out@.len() && sort_key(entries@[#[trigger] out@[a] as int].card) == sort_key(entries@[#[trigger] out@[b] as int].card) ==> out@[a] < out@[b],
        decreases entries@.len() - i,
    {
        let ghost kx = sort_key(entries@[i as int].card);
        let mut p: usize = 0;
        while p < out.len() && !before(&keys[i], &keys[out[p]])
            invariant
                p <= out@.len(),
                i < entries@.len(),
                kx == sort_key(entries@[i as int].card),
                keys@.len() == entries@.len(),
                forall|x: int| 0 <= x < entries@.len() ==> ((#[trigger] keys@[x]).0, keys@[x].1, keys@[x].2@, keys@[x].3@) == sort_key(entries@[x].card),
                forall|a: int| 0 <= a < out@.len() ==> (#[trigger] out@[a]) < i,
                forall|q: int| 0 <= q < p ==> !key_before(kx, sort_key(entries@[#[trigger] out@[q] as int].card)),
            decreases out@.len() - p,
        {
            proof {
                let q = out@[p as int] as int;
                assert(q < i);
                assert((keys@[q].0, keys@[q].1, keys@[q].2@, keys@[q].3@) == sort_key(entries@[q].card));
                assert((keys@[i as int].0, keys@[i as int].1, keys@[i as int].2@, keys@[i as int].3@) == kx);
            }
            p = p + 1;
        }
        let ghost old_out = out@;
        proof {
            if p < old_out.len() {
                let kp = sort_key(entries@[old_out[p as int] as int].card);
                assert(key_before(kx, kp));
                assert forall|q: int| p <= q < old_out.len() implies key_before(kx, sort_key(entries@[#[trigger] old_out[q] as int].card)) by {
                    let kq = sort_key(entries@[old_out[q] as int].card);
                    if q > p {
                        assert(!key_before(kq, kp));
                        lemma_before_facts(kx, kp, kq);
                        lemma_before_facts(kp, kq, kx);
                    }
                }
            }
        }
        out.insert(p, i);
        proof {
            let o = out@;
            assert forall|a: int| 0 <= a < o.len() implies (#[trigger] o[a]) < i + 1 by {
                if a < p {
                    assert(o[a] == old_out[a]);
                } else if a > p {
                    assert(o[a] == old_out[a - 1]);
                }
            }
            assert forall|a: int, b: int| 0 <= a < b < o.len() implies #[trigger] o[a] != #[trigger] o[b] by {
                if a != p && b != p {
                    let a2 = if a < p { a } else { a - 1 };
                    let b2 = if b < p { b } else { b - 1 };
                    assert(o[a] == old_out[a2] && o[b] == old_out[b2]);
                } else if a == p {
                    assert(o[b] == old_out[b - 1]);
                } else {
                    assert(o[a] == old_out[a]);
                }
            }
            assert forall|a: int, b: int| 0 <= a < b < o.len() implies !key_before(sort_key(entries@[#[trigger] o[b] as int].card), sort_key(entries@[#[trigger] o[a] as int].card)) by {
                if a != p && b != p {
                    let a2 = if a < p { a } else { a - 1 };
                    let b2 = if b < p { b } else { b - 1 };
                    assert(o[a] == old_out[a2] && o[b] == old_out[b2]);
                } else if a == p {
                    assert(o[b] == old_out[b - 1]);
                    let kb = sort_key(entries@[old_out[b - 1] as int].card);
                    lemma_before_facts(kx, kb, kx);
                } else {
                    assert(o[a] == old_out[a]);
                }
            }
            assert forall|a: int, b: int| 0 <= a < b < o.len() && sort_key(entries@[#[trigger] o[a] as int].card) == sort_key(entries@[#[trigger] o[b] as int].card) implies o[a] < o[b] by {
                if a != p && b != p {
                    let a2 = if a < p { a } else { a - 1 };
                    let b2 = if b < p { b } else { b - 1 };
                    assert(o[a] == old_out[a2] && o[b] == old_out[b2]);
                } else if a == p {
                    assert(o[b] == old_out[b - 1]);
                    lemma_before_facts(kx, kx, kx);
                } else {
                    assert(o[a] == old_out[a]);
                }
            }
        }
        i = i + 1;
    }
    proof {
        let m = out@.map_values(|i: usize| i as int);
        assert forall|a: int| 0 <= a < m.len() implies #[trigger] m[a] == out@[a] as int by {}
    }
    out
}

/// The entries in sort order, as references to them.
pub fn ordered(entries: &[DeckEntry]) -> (r: Vec<&DeckEntry>)
    ensures
        exists|p: Seq<int>| #[trigger] sorted_as(entries@, p) && r@.len() == p.len() && forall|k: int| 0 <= k < p.len() ==> *r@[k] == entries@[p[k]],
{
    let order = order_of(entries);
    let ghost p = order@.map_values(|i: usize| i as int);
    let mut out: Vec<&DeckEntry> = Vec::new();
    let mut k: usize = 0;
    while k < order.len()
        invariant
            k <= order@.len(),
            p == order@.map_values(|i: usize| i as int),
            sorted_as(entries@, p),
            out@.len() == k,
            forall|x: int| 0 <= x < k ==> *out@[x] == entries@[p[x]],
        decreases order@.len() - k,
    {
        assert(p[k as int] == order@[k as int] as int);
        out.push(&entries[order[k]]);
        k = k + 1;
    }
    out
}

/// The copies the entries named `name` hold in all.
pub open spec fn name_total(entries: Seq<DeckEntry>, name: Seq<char>) -> nat
    decreases entries.len(),
{
    if entries.len() == 0 {
        0
    } else {
        name_total(entries.drop_last(), name) + if entries.last().card.name@ == name {
            entries.last().count as nat
        } else {
            0
        }
    }
}

/// No name is held in more copies in all than a `u32` holds.
pub open spec fn names_fit(entries: Seq<DeckEntry>) -> bool {
    forall|name: Seq<char>| #[trigger] name_total(entries, name) <= u32::MAX
}

/// The copies the entries at positions `p` named `name` hold in all.
pub open spec fn picked_total(entries: Seq<DeckEntry>, p: Seq<int>, name: Seq<char>) -> nat
    decreases p.len(),
{
    if p.len() == 0 {
        0
    } else {
        picked_total(entries, p.drop_last(), name) + if entries[p.last()].card.name@ == name {
            entries[p.last()].count as nat
        } else {
            0
        }
    }
}

proof fn lemma_picked_remove(entries: Seq<DeckEntry>, p: Seq<int>, a: int, name: Seq<char>)
    requires
        0 <= a < p.len(),
    ensures
        picked_total(entries, p, name) == picked_total(entries, p.remove(a), name) + if entries[p[a]].card.name@ == name {
            entries[p[a]].count as nat
        } else {
            0
        },
    decreases p.len(),
{
    if a == p.len() - 1 {
        assert(p.remove(a) =~= p.drop_last());
    } else {
        lemma_picked_remove(entries, p.drop_last(), a, name);
        assert(p.remove(a).drop_last() =~= p.drop_last().remove(a));
        assert(p.remove(a).last() == p.last());
    }
}

proof fn lemma_picked_prefix(entries: Seq<DeckEntry>, p: Seq<int>, name: Seq<char>)
    requires
        entries.len() > 0,
        forall|a: int| 0 <= a < p.len() ==> 0 <= #[trigger] p[a] < entries.len() - 1,
    ensures
        picked_total(entries, p, name) == picked_total(entries.drop_last(), p, name),
    decreases p.len(),
{
    if p.len() > 0 {
        assert forall|a: int| 0 <= a < p.drop_last().len() implies 0 <= #[trigger] p.drop_last()[a] < entries.len() - 1 by {
            assert(p.drop_last()[a] == p[a]);
        }
        lemma_picked_prefix(entries, p.drop_last(), name);
        assert(p[p.len() - 1] == p.last());
    }
}

/// Entries picked at distinct positions hold no more copies of a name
/// than all the entries do.
proof fn lemma_picked_le_total(entries: Seq<DeckEntry>, p: Seq<int>, name: Seq<char>)
    requires
        forall|a: int| 0 <= a < p.len() ==> 0 <= #[trigger] p[a] < entries.len(),
        forall|a: int, b: int| 0 <= a < b < p.len() ==> #[trigger] p[a] != #[trigger] p[b],
    ensures
        picked_total(entries, p, name) <= name_total(entries, name),
    decreases entries.len(),
{
    if entries.len() == 0 {
        if p.len() > 0 {
            assert(0 <= p[0] < entries.len());
        }
    } else {
        let j = entries.len() - 1;
        let q = if exists|a: int| 0 <= a < p.len() && #[trigger] p[a] == j {
            let a = choose|a: int| 0 <= a < p.len() && #[trigger] p[a] == j;
            lemma_picked_remove(entries, p, a, name);
            p.remove(a)
        } else {
            p
        };
        assert(picked_total(entries, p, name) <= picked_total(entries, q, name) + if entries.last().card.name@ == name {
            entries.last().count as nat
        } else {
            0
        });
        assert forall|x: int| 0 <= x < q.len() implies 0 <= #[trigger] q[x] < entries.len() - 1 by {
            if exists|a: int| 0 <= a < p.len() && #[trigger] p[a] == j {
                let a = choose|a: int| 0 <= a < p.len() && #[trigger] p[a] == j;
                if x < a {
                    assert(q[x] == p[x]);
                } else {
                    assert(q[x] == p[x + 1]);
                }
            }
        }
        assert forall|x: int, y: int| 0 <= x < y < q.len() implies #[trigger] q[x] != #[trigger] q[y] by {
            if exists|a: int| 0 <= a < p.len() && #[trigger] p[a] == j {
                let a = choose|a: int| 0 <= a < p.len() && #[trigger] p[a] == j;
                let x2 = if x < a { x } else { x + 1 };
                let y2 = if y < a { y } else { y + 1 };
                assert(q[x] == p[x2] && q[y] == p[y2]);
            }
        }
        lemma_picked_prefix(entries, q, name);
        lemma_picked_le_total(entries.drop_last(), q, name);
    }
}

proof fn lemma_name_total_prefix(e: Seq<DeckEntry>, j: int, name: Seq<char>)
    requires
        0 <= j <= e.len(),
    ensures
        name_total(e.take(j), name) <= name_total(e, name),
    decreases e.len() - j,
{
    if j < e.len() {
        lemma_name_total_prefix(e, j + 1, name);
        assert(e.take(j + 1).drop_last() =~= e.take(j));
    } else {
        assert(e.take(j) =~= e);
    }
}

proof fn lemma_name_total_absent(e: Seq<DeckEntry>, name: Seq<char>)
    requires
        forall|i: int| 0 <= i < e.len() ==> (#[trigger] e[i]).card.name@ != name,
    ensures
        name_total(e, name) == 0,
    decreases e.len(),
{
    if e.len() > 0 {
        assert forall|i: int| 0 <= i < e.drop_last().len() implies (#[trigger] e.drop_last()[i]).card.name@ != name by {
            assert(e.drop_last()[i] == e[i]);
        }
        lemma_name_total_absent(e.drop_last(), name);
        assert(e[e.len() - 1] == e.last());
    }
}

fn name_fits(entries: &[DeckEntry], name: &String) -> (r: bool)
    ensures
        r == (name_total(entries@, name@) <= u32::MAX),
{
    let mut sum: u64 = 0;
    let mut j: usize = 0;
    while j < entries.len()
        invariant
            j <= entries@.len(),
            sum == name_total(entries@.take(j as int), name@),
            sum <= u32::MAX,
        decreases entries@.len() - j,
    {
        assert(entries@.take(j as int + 1).drop_last() =~= entries@.take(j as int));
        if same_text(&entries[j].card.name, name) {
            sum = sum + entries[j].count as u64;
        }
        j = j + 1;
        if sum > 4294967295u64 {
            proof {
                lemma_name_total_prefix(entries@, j as int, name@);
            }
            return false;
        }
    }
    assert(entries@.take(j as int) =~= entries@);
    true
}

/// Tests what `merged_by_name` needs of a zone: whether no name is held in
/// more copies in all than a `u32` holds.
pub fn names_fit_of(entries: &[DeckEntry]) -> (r: bool)
    ensures
        r == names_fit(entries@),
{
    let mut i: usize = 0;
    while i < entries.len()
        invariant
            i <= entries@.len(),
            forall|k: int| 0 <= k < i ==> name_total(entries@, (#[trigger] entries@[k]).card.name@) <= u32::MAX,
        decreases entries@.len() - i,
    {
        if !name_fits(entries, &entries[i].card.name) {
            return false;
        }
        i = i + 1;
    }
    assert forall|name: Seq<char>| #[trigger] name_total(entries@, name) <= u32::MAX by {
        if exists|k: int| 0 <= k < entries@.len() && (#[trigger] entries@[k]).card.name@ == name {
            let k = choose|k: int| 0 <= k < entries@.len() && (#[trigger] entries@[k]).card.name@ == name;
        } else {
            lemma_name_total_absent(entries@, name);
        }
    }
    true
}

/// Where the line of `name` is among merged lines, if it is there.
pub open spec fn line_at(lines: Seq<(Seq<char>, nat)>, name: Seq<char>, i: int) -> Option<int>
    decreases lines.len() - i,
{
    if i < 0 || i >= lines.len() {
        None
    } else if lines[i].0 == name {
        Some(i)
    } else {
        line_at(lines, name, i + 1)
    }
}

/// Merged lines with one more entry: its copies join the line of its name,
/// or it opens a line at the end.
pub open spec fn merge_in(lines: Seq<(Seq<char>, nat)>, name: Seq<char>, count: nat) -> Seq<(Seq<char>, nat)> {
    match line_at(lines, name, 0) {
        Some(i) => lines.update(i, (name, lines[i].1 + count)),
        None => lines.push((name, count)),
    }
}

/// The lines of the entries at positions `p`, in that order: one per name,
/// where the name first comes, with the copies of that name in all.
pub open spec fn merged_lines(entries: Seq<DeckEntry>, p: Seq<int>) -> Seq<(Seq<char>, nat)>
    decreases p.len(),
{
    if p.len() == 0 {
        Seq::empty()
    } else {
        merge_in(merged_lines(entries, p.drop_last()), entries[p.last()].card.name@, entries[p.last()].count as nat)
    }
}

proof fn lemma_line_at(lines: Seq<(Seq<char>, nat)>, name: Seq<char>, i: int)
    requires
        0 <= i <= lines.len(),
    ensures
        match line_at(lines, name, i) {
            Some(k) => i <= k < lines.len() && lines[k].0 == name && forall|x: int| i <= x < k ==> lines[x].0 != name,
            None => forall|x: int| i <= x < lines.len() ==> lines[x].0 != name,
        },
    decreases lines.len() - i,
{
    if i < lines.len() && lines[i].0 != name {
        lemma_line_at(lines, name, i + 1);
    }
}

/// Each merged line counts the copies of its name among the entries picked.
proof fn lemma_merged_counts(entries: Seq<DeckEntry>, p: Seq<int>)
    requires
        forall|a: int| 0 <= a < p.len() ==> 0 <= #[trigger] p[a] < entries.len(),
    ensures
        forall|x: int| 0 <= x < merged_lines(entries, p).len() ==> (#[trigger] merged_lines(entries, p)[x]).1 == picked_total(entries, p, merged_lines(entries, p)[x].0),
        forall|x: int, y: int| 0 <= x < y < merged_lines(entries, p).len() ==> (#[trigger] merged_lines(entries, p)[x]).0 != (#[trigger] merged_lines(entries, p)[y]).0,
        forall|name: Seq<char>| line_at(merged_lines(entries, p), name, 0) is None ==> #[trigger] picked_total(entries, p, name) == 0,
    decreases p.len(),
{
    if p.len() > 0 {
        let t = p.drop_last();
        assert forall|a: int| 0 <= a < t.len() implies 0 <= #[trigger] t[a] < entries.len() by {
            assert(t[a] == p[a]);
        }
        lemma_merged_counts(entries, t);
        let lines = merged_lines(entries, t);
        let e = entries[p.last()];
        lemma_line_at(lines, e.card.name@, 0);
        let m = merged_lines(entries, p);
        let c = e.count as nat;
        assert forall|name: Seq<char>| #[trigger] picked_total(entries, p, name) == picked_total(entries, t, name) + if e.card.name@ == name {
            c
        } else {
            0
        } by {}
        match line_at(lines, e.card.name@, 0) {
            Some(i) => {
                assert(m == lines.update(i, (e.card.name@, lines[i].1 + c)));
                assert forall|x: int| 0 <= x < m.len() implies (#[trigger] m[x]).1 == picked_total(entries, p, m[x].0) by {
                    if x == i {
                        assert(picked_total(entries, p, e.card.name@) == picked_total(entries, t, e.card.name@) + c);
                    } else {
                        assert(m[x] == lines[x]);
                        assert(lines[x].0 != lines[i].0);
                        assert(picked_total(entries, p, m[x].0) == picked_total(entries, t, m[x].0));
                    }
                }
                assert forall|x: int, y: int| 0 <= x < y < m.len() implies (#[trigger] m[x]).0 != (#[trigger] m[y]).0 by {
                    assert(m[x].0 == lines[x].0 && m[y].0 == lines[y].0);
                }
                assert forall|name: Seq<char>| line_at(m, name, 0) is None implies #[trigger] picked_total(entries, p, name) == 0 by {
                    lemma_line_at(m, name, 0);
                    lemma_line_at(lines, name, 0);
                    if line_at(lines, name, 0) is Some {
                        let k = line_at(lines, name, 0)->Some_0;
                        assert(m[k].0 == lines[k].0);
                    }
                    assert(name != e.card.name@) by {
                        assert(m[i].0 == e.card.name@);
                    }
                }
            },
            None => {
                assert(m == lines.push((e.card.name@, c)));
                assert(picked_total(entries, t, e.card.name@) == 0);
                assert forall|x: int| 0 <= x < m.len() implies (#[trigger] m[x]).1 == picked_total(entries, p, m[x].0) by {
                    if x == lines.len() {
                        assert(m[x] == (e.card.name@, c));
                    } else {
                        assert(m[x] == lines[x]);
                        assert(picked_total(entries, p, m[x].0) == picked_total(entries, t, m[x].0));
                    }
                }
                assert forall|x: int, y: int| 0 <= x < y < m.len() implies (#[trigger] m[x]).0 != (#[trigger] m[y]).0 by {
                    if y == lines.len() {
                        assert(m[x] == lines[x]);
                    } else {
                        assert(m[x] == lines[x] && m[y] == lines[y]);
                    }
                }
                assert forall|name: Seq<char>| line_at(m, name, 0) is None implies #[trigger] picked_total(entries, p, name) == 0 by {
                    lemma_line_at(m, name, 0);
                    lemma_line_at(lines, name, 0);
                    if line_at(lines, name, 0) is Some {
                        let k = line_at(lines, name, 0)->Some_0;
                        assert(m[k] == lines[k]);
                    }
                    assert(name != e.card.name@) by {
                        assert(m[lines.len() as int].0 == e.card.name@);
                    }
                }
            },
        }
    }
}

/// The lines of a zone, in sort order: one per name, where the name first
/// comes, with the copies of that name in all.
pub fn merged_by_name(entries: &[DeckEntry]) -> (r: Vec<(String, u32)>)
    requires
        names_fit(entries@),
    ensures
        exists|p: Seq<int>| #[trigger] sorted_as(entries@, p) && r@.map_values(|l: (String, u32)| (l.0@, l.1 as nat)) == merged_lines(entries@, p),
{
    let order = order_of(entries);
    let ghost p = order@.map_values(|i: usize| i as int);
    let mut lines: Vec<(String, u32)> = Vec::new();
    let mut k: usize = 0;
    while k < order.len()
        invariant
            k <= order@.len(),
            p == order@.map_values(|i: usize| i as int),
            sorted_as(entries@, p),
            names_fit(entries@),
            lines@.map_values(|l: (String, u32)| (l.0@, l.1 as nat)) == merged_lines(entries@, p.take(k as int)),
        decreases order@.len() - k,
    {
        let ghost before = lines@.map_values(|l: (String, u32)| (l.0@, l.1 as nat));
        let ghost pk = p.take(k as int + 1);
        assert(pk.drop_last() =~= p.take(k as int));
        assert(pk.last() == order@[k as int] as int);
        let entry = &entries[order[k]];
        proof {
            assert forall|a: int| 0 <= a < pk.len() implies 0 <= #[trigger] pk[a] < entries@.len() by {
                assert(pk[a] == p[a]);
            }
            assert forall|a: int, b: int| 0 <= a < b < pk.len() implies #[trigger] pk[a] != #[trigger] pk[b] by {
                assert(pk[a] == p[a] && pk[b] == p[b]);
            }
            lemma_picked_le_total(entries@, pk, entry.card.name@);
            lemma_merged_counts(entries@, p.take(k as int));
            lemma_line_at(before, entry.card.name@, 0);
        }
        let mut j: usize = 0;
        while j < lines.len() && !same_text(&lines[j].0, &entry.card.name)
            invariant
                j <= lines@.len(),
                before == lines@.map_values(|l: (String, u32)| (l.0@, l.1 as nat)),
                forall|x: int| 0 <= x < j ==> before[x].0 != entry.card.name@,
            decreases lines@.len() - j,
        {
            assert(before[j as int].0 == lines@[j as int].0@);
            j = j + 1;
        }
        proof {
            if j < lines@.len() {
                assert(before[j as int].0 == lines@[j as int].0@);
                assert(before[j as int].0 == entry.card.name@);
            }
        }
        if j < lines.len() {
            let total = lines[j].1 + entry.count;
            let name = lines[j].0.clone();
            lines.set(j, (name, total));
        } else {
            lines.push((entry.card.name.clone(), entry.count));
        }
        proof {
            assert(lines@.map_values(|l: (String, u32)| (l.0@, l.1 as nat)) =~= merge_in(before, entry.card.name@, entry.count as nat));
        }
        k = k + 1;
    }
    assert(p.take(order@.len() as int) =~= p);
    lines
}

/// Lines of a text list: each line's copies, a space, its name.
pub open spec fn lines_text(lines: Seq<(Seq<char>, nat)>) -> Seq<char>
    decreases lines.len(),
{
    if lines.len() == 0 {
        Seq::empty()
    } else {
        lines_text(lines.drop_last()) + decimal(lines.last().1) + seq![' '] + lines.last().0 + seq!['\n']
    }
}

/// The text after a section is added to `before`: nothing for no lines;
/// else a blank line when text came before, the header and a colon, and
/// the lines.
pub open spec fn with_section(before: Seq<char>, header: Seq<char>, lines: Seq<(Seq<char>, nat)>) -> Seq<char> {
    if lines.len() == 0 {
        before
    } else {
        before + (if before.len() > 0 {
            seq!['\n']
        } else {
            Seq::empty()
        }) + header + seq![':', '\n'] + lines_text(lines)
    }
}

/// The one line of a seated card, if one is seated.
pub open spec fn seat_lines(card: Option<ResolvedCard>) -> Seq<(Seq<char>, nat)> {
    match card {
        Some(c) => seq![(c.name@, 1nat)],
        None => Seq::empty(),
    }
}

/// Whether `lines` are the merged lines of a zone in sort order.
pub open spec fn zone_merged(entries: Seq<DeckEntry>, lines: Seq<(Seq<char>, nat)>) -> bool {
    exists|p: Seq<int>| #[trigger] sorted_as(entries, p) && lines == merged_lines(entries, p)
}

/// The text list of a deck whose zones merge to the given lines: legend,
/// champion, main deck, battlefields, runes and sideboard, each under its
/// header, empty sections left out.
pub open spec fn deck_text(
    deck: ResolvedDeck,
    main: Seq<(Seq<char>, nat)>,
    battlefields: Seq<(Seq<char>, nat)>,
    runes: Seq<(Seq<char>, nat)>,
    sideboard: Seq<(Seq<char>, nat)>,
) -> Seq<char> {
    let a = with_section(Seq::empty(), HEADER_LEGEND@, seat_lines(deck.legend));
    let b = with_section(a, HEADER_CHAMPION@, seat_lines(deck.chosen_champion));
    let c = with_section(b, HEADER_MAIN@, main);
    let d = with_section(c, HEADER_BATTLEFIELDS@, battlefields);
    let e = with_section(d, HEADER_RUNES@, runes);
    with_section(e, HEADER_SIDEBOARD@, sideboard)
}

fn section(out: &mut Vec<char>, header: &str, lines: &Vec<(String, u32)>)
    ensures
        final(out)@ == with_section(old(out)@, header@, lines@.map_values(|l: (String, u32)| (l.0@, l.1 as nat))),
{
    let ghost ls = lines@.map_values(|l: (String, u32)| (l.0@, l.1 as nat));
    if lines.len() == 0 {
        return;
    }
    if out.len() > 0 {
        out.push('\n');
    }
    extend(out, chars_of(header).as_slice());
    out.push(':');
    out.push('\n');
    let ghost start = out@;
    let mut k: usize = 0;
    while k < lines.len()
        invariant
            k <= lines@.len(),
            ls == lines@.map_values(|l: (String, u32)| (l.0@, l.1 as nat)),
            out@ == start + lines_text(ls.take(k as int)),
        decreases lines@.len() - k,
    {
        assert(ls.take(k as int + 1).drop_last() =~= ls.take(k as int));
        push_decimal(out, lines[k].1);
        out.push(' ');
        extend(out, chars_of(lines[k].0.as_str()).as_slice());
        out.push('\n');
        k = k + 1;
        proof {
            let t = ls.take(k as int);
            assert(t.last() == (lines@[k - 1].0@, lines@[k - 1].1 as nat));
            assert(out@ =~= start + lines_text(t));
        }
    }
    assert(ls.take(k as int) =~= ls);
    assert(out@ =~= old(out)@ + (if old(out)@.len() > 0 {
        seq!['\n']
    } else {
        Seq::empty()
    }) + header@ + seq![':', '\n'] + lines_text(ls));
}

fn single(card: &Option<ResolvedCard>) -> (r: Vec<(String, u32)>)
    ensures
        r@.map_values(|l: (String, u32)| (l.0@, l.1 as nat)) == seat_lines(*card),
{
    let mut out: Vec<(String, u32)> = Vec::new();
    match card {
        Some(c) => out.push((c.name.clone(), 1)),
        None => {},
    }
    assert(out@.map_values(|l: (String, u32)| (l.0@, l.1 as nat)) =~= seat_lines(*card));
    out
}

/// Writes a deck as a text list: the legend, the champion, the main deck,
/// battlefields, runes and sideboard, each under its header, with the
/// cards of a zone merged by name in sort order; empty sections are left
/// out.
pub fn render(deck: &ResolvedDeck) -> (r: String)
    requires
        names_fit(deck.main_deck@),
        names_fit(deck.battlefields@),
        names_fit(deck.runes@),
        names_fit(deck.sideboard@),
    ensures
        exists|m: Seq<(Seq<char>, nat)>, b: Seq<(Seq<char>, nat)>, ru: Seq<(Seq<char>, nat)>, sb: Seq<(Seq<char>, nat)>| {
            &&& zone_merged(deck.main_deck@, m)
            &&& zone_merged(deck.battlefields@, b)
            &&& zone_merged(deck.runes@, ru)
            &&& zone_merged(deck.sideboard@, sb)
            &&& r@ == #[trigger] deck_text(*deck, m, b, ru, sb)
        },
{
    let mut out: Vec<char> = Vec::new();
    section(&mut out, HEADER_LEGEND, &single(&deck.legend));
    section(&mut out, HEADER_CHAMPION, &single(&deck.chosen_champion));
    let main = merged_by_name(deck.main_deck.as_slice());
    section(&mut out, HEADER_MAIN, &main);
    let battlefields = merged_by_name(deck.battlefields.as_slice());
    section(&mut out, HEADER_BATTLEFIELDS, &battlefields);
    let runes = merged_by_name(deck.runes.as_slice());
    section(&mut out, HEADER_RUNES, &runes);
    let sideboard = merged_by_name(deck.sideboard.as_slice());
    section(&mut out, HEADER_SIDEBOARD, &sideboard);
    let r = string_of(out.as_slice());
    proof {
        let view = |l: (String, u32)| (l.0@, l.1 as nat);
        assert(r@ == deck_text(*deck, main@.map_values(view), battlefields@.map_values(view), runes@.map_values(view), sideboard@.map_values(view)));
    }
    r
}

} // verus!
