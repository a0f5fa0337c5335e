//! Plain-text deck lists: one card per line with an optional count, under
//! optional section headers.
use vstd::prelude::*;
use crate::deck::{Game, ParsedDeck, ParsedEntry};
use crate::text::{
    all_digits, chars_of, decimal, digits_value, ends, extend, push_decimal_usize, is_digit, is_ws, lines, lines_of, lower_all,
    lower_seq, same, slice, starts, string_of, trim, trim_end, trim_end_of, trim_of, trim_start,
    trim_start_of, views, ws,
};

verus! {

/// Why a text list does not parse; line numbers count from 1.
#[derive(Debug, Clone, PartialEq, Eq, Structural)]
pub enum TextError {
    Empty,
    BlankName(usize),
    ZeroCount(usize),
}

/// The message a reader sees for `e`.
pub open spec fn text_error_message(e: TextError) -> Seq<char> {
    match e {
        TextError::Empty => "the deck list is empty"@,
        TextError::BlankName(line) => "line "@ + decimal(line as nat) + " has a count but no card name"@,
        TextError::ZeroCount(line) => "line "@ + decimal(line as nat) + " asks for zero copies"@,
    }
}

impl TextError {
    /// The message a reader sees.
    pub fn message(&self) -> (r: String)
        ensures
            r@ == text_error_message(*self),
    {
        let mut out: Vec<char> = Vec::new();
        match self {
            TextError::Empty => {
                extend(&mut out, chars_of("the deck list is empty").as_slice());
            },
            TextError::BlankName(line) => {
                extend(&mut out, chars_of("line ").as_slice());
                push_decimal_usize(&mut out, *line);
                extend(&mut out, chars_of(" has a count but no card name").as_slice());
            },
            TextError::ZeroCount(line) => {
                extend(&mut out, chars_of("line ").as_slice());
                push_decimal_usize(&mut out, *line);
                extend(&mut out, chars_of(" asks for zero copies").as_slice());
            },
        }
        assert(out@ =~= text_error_message(*self));
        string_of(out.as_slice())
    }
}

/// How a game reads a text list: its section headers, how a name becomes an
/// identifier, and the few lines it treats specially.
pub trait TextVocabulary {
    type Game: Game;

    /// The section a (lower-case) header names, if any.
    open spec fn section_named(header: Seq<char>) -> Option<<Self::Game as Game>::Section> {
        None
    }

    fn section(header: &str) -> (r: Option<<Self::Game as Game>::Section>)
        ensures
            r == Self::section_named(header@),
    ;

    /// Whether `identifier` is what the card name `name` stands for.
    open spec fn identifies(identifier: <Self::Game as Game>::Identifier, name: Seq<char>) -> bool {
        false
    }

    /// The identifier a card name stands for.
    fn identifier(name: &str) -> (r: <Self::Game as Game>::Identifier)
        ensures
            Self::identifies(r, name@),
    ;

    /// A section written on the card's own line, and the rest of the line.
    open spec fn inline_part(line: Seq<char>) -> Option<(Seq<char>, <Self::Game as Game>::Section)> {
        None
    }

    fn inline_section(line: &str) -> (r: Option<(String, <Self::Game as Game>::Section)>)
        ensures
            match r {
                Some(p) => Self::inline_part(line@) == Some((p.0@, p.1)),
                None => Self::inline_part(line@) is None,
            },
    ;

    /// Whether cards listed under `section` are left out.
    open spec fn skipped(section: <Self::Game as Game>::Section) -> bool {
        false
    }

    fn skip(section: <Self::Game as Game>::Section) -> (r: bool)
        ensures
            r == Self::skipped(section),
    ;

    /// The card name with whatever the game does not look up removed.
    open spec fn clean(name: Seq<char>) -> Seq<char> {
        name
    }

    fn clean_name(name: &str) -> (r: String)
        ensures
            r@ == Self::clean(name@),
    ;
}

pub open spec fn tildes() -> Seq<char> {
    seq!['~', '~']
}

/// The text between a `~~` opening and a `~~` closing, trimmed.
pub open spec fn tilde_inner(l: Seq<char>) -> Option<Seq<char>> {
    if l.len() >= 4 && starts(l, tildes()) && ends(l, tildes()) {
        Some(trim(l.subrange(2, l.len() - 2)))
    } else {
        None
    }
}

/// `s` without its leading `#` characters.
pub open spec fn skip_hashes(s: Seq<char>) -> Seq<char>
    decreases s.len(),
{
    if s.len() > 0 && s[0] == '#' {
        skip_hashes(s.drop_first())
    } else {
        s
    }
}

/// The text after a run of two or more `#`, trimmed.
pub open spec fn hash_inner(l: Seq<char>) -> Option<Seq<char>> {
    if l.len() >= 2 && l[0] == '#' && l[1] == '#' {
        Some(trim(skip_hashes(l.drop_first())))
    } else {
        None
    }
}

/// What `unwrap_header` gives: a `~~Header~~` or `## Header` line's
/// header, else the trimmed line.
pub open spec fn unwrapped(line: Seq<char>) -> Seq<char> {
    let l = trim(line);
    match tilde_inner(l) {
        Some(t) => t,
        None => match hash_inner(l) {
            Some(h) => h,
            None => l,
        },
    }
}

fn skip_hashes_of(s: &[char]) -> (out: Vec<char>)
    ensures
        out@ == skip_hashes(s@),
{
    let mut i: usize = 0;
    assert(s@.skip(0) =~= s@);
    while i < s.len() && s[i] == '#'
        invariant
            i <= s@.len(),
            skip_hashes(s@) == skip_hashes(s@.skip(i as int)),
        decreases s@.len() - i,
    {
        assert(s@.skip(i as int).drop_first() =~= s@.skip(i as int + 1));
        i = i + 1;
    }
    let out = slice(s, i, s.len());
    assert(s@.subrange(i as int, s@.len() as int) =~= s@.skip(i as int));
    out
}

fn unwrap_header_chars(line: &[char]) -> (out: Vec<char>)
    ensures
        out@ == unwrapped(line@),
{
    let l = trim_of(line);
    let n = l.len();
    if n >= 4 && l[0] == '~' && l[1] == '~' && l[n - 2] == '~' && l[n - 1] == '~' {
        assert(l@.take(2) =~= tildes());
        assert(l@.skip(n - 2) =~= tildes());
        let inner = slice(l.as_slice(), 2, n - 2);
        return trim_of(inner.as_slice());
    }
    proof {
        if n >= 4 && starts(l@, tildes()) && ends(l@, tildes()) {
            assert(l@.take(2)[0] == l@[0] && l@.take(2)[1] == l@[1]);
            assert(l@.skip(n - 2)[0] == l@[n - 2] && l@.skip(n - 2)[1] == l@[n - 1]);
        }
    }
    if n >= 2 && l[0] == '#' && l[1] == '#' {
        let rest = slice(l.as_slice(), 1, n);
        assert(rest@ =~= l@.drop_first());
        let bare = skip_hashes_of(rest.as_slice());
        return trim_of(bare.as_slice());
    }
    l
}

/// A header line's text: `~~Header~~` and `## Header` unwrapped, anything
/// else trimmed.
pub fn unwrap_header(line: &str) -> (r: String)
    ensures
        r@ == unwrapped(line@),
{
    let cs = chars_of(line);
    let out = unwrap_header_chars(cs.as_slice());
    string_of(out.as_slice())
}

/// `s` without its trailing `:` characters.
pub open spec fn drop_colons(s: Seq<char>) -> Seq<char>
    decreases s.len(),
{
    if s.len() > 0 && s.last() == ':' {
        drop_colons(s.drop_last())
    } else {
        s
    }
}

/// The last `(` in `s`.
pub open spec fn last_open(s: Seq<char>, i: int) -> Option<int>
    decreases i + 1,
{
    if i < 0 || i >= s.len() {
        None
    } else if s[i] == '(' {
        Some(i)
    } else {
        last_open(s, i - 1)
    }
}

/// The header text a line stands for: unwrapped, trailing colons and a
/// `(count)` tail removed, lower-cased.
pub open spec fn header_text(line: Seq<char>) -> Seq<char> {
    let h = trim(drop_colons(unwrapped(line)));
    let h2 = match last_open(h, h.len() - 1) {
        Some(open) => {
            let tail = h.skip(open);
            if tail.len() >= 2 && tail.last() == ')' && all_digits(tail.subrange(1, tail.len() - 1)) {
                trim(h.take(open))
            } else {
                h
            }
        },
        None => h,
    };
    lower_seq(h2)
}

fn drop_colons_of(s: &[char]) -> (out: Vec<char>)
    ensures
        out@ == drop_colons(s@),
{
    let mut i: usize = s.len();
    assert(s@.take(i as int) =~= s@);
    while i > 0 && s[i - 1] == ':'
        invariant
            i <= s@.len(),
            drop_colons(s@) == drop_colons(s@.take(i as int)),
        decreases i,
    {
        assert(s@.take(i as int).drop_last() =~= s@.take(i as int - 1));
        i = i - 1;
    }
    slice(s, 0, i)
}

fn all_digits_between(s: &[char], from: usize, to: usize) -> (r: bool)
    requires
        from <= to <= s@.len(),
    ensures
        r == all_digits(s@.subrange(from as int, to as int)),
{
    let mut i: usize = from;
    while i < to
        invariant
            from <= i <= to <= s@.len(),
            forall|j: int| from <= j < i ==> is_digit(#[trigger] s@[j]),
        decreases to - i,
    {
        if !crate::text::digit(s[i]) {
            assert(s@.subrange(from as int, to as int)[i - from] == s@[i as int]);
            return false;
        }
        i = i + 1;
    }
    assert forall|j: int| 0 <= j < (to - from) implies is_digit(#[trigger] s@.subrange(from as int, to as int)[j]) by {
        assert(s@.subrange(from as int, to as int)[j] == s@[from + j]);
    }
    true
}

fn header_chars(line: &[char]) -> (out: Vec<char>)
    ensures
        out@ == header_text(line@),
{
    let u = unwrap_header_chars(line);
    let d = drop_colons_of(u.as_slice());
    let h = trim_of(d.as_slice());
    let n = h.len();
    let mut i: usize = n;
    while i > 0 && h[i - 1] != '('
        invariant
            i <= n == h@.len(),
            last_open(h@, n - 1) == last_open(h@, i - 1),
        decreases i,
    {
        i = i - 1;
    }
    let h2 = if i > 0 {
        let open = i - 1;
        assert(last_open(h@, n - 1) == Some(open as int));
        let tail_len = n - open;
        if tail_len >= 2 && h[n - 1] == ')' && all_digits_between(h.as_slice(), open + 1, n - 1) {
            assert(h@.skip(open as int).subrange(1, tail_len - 1) =~= h@.subrange(open + 1, n - 1));
            assert(h@.skip(open as int).last() == h@[n - 1]);
            let front = slice(h.as_slice(), 0, open);
            assert(front@ =~= h@.take(open as int));
            trim_of(front.as_slice())
        } else {
            proof {
                let tail = h@.skip(open as int);
                if tail.len() >= 2 && tail.last() == ')' {
                    assert(tail.subrange(1, tail.len() - 1) =~= h@.subrange(open + 1, n - 1));
                }
            }
            h
        }
    } else {
        h
    };
    lower_all(h2.as_slice())
}

/// A `# Title` line: one `#` and then not another.
pub open spec fn title_line(line: Seq<char>) -> bool {
    line.len() > 0 && line[0] == '#' && !(line.len() > 1 && line[1] == '#')
}

/// A run of decimal digits in range, as a count.
pub open spec fn digits_of(token: Seq<char>) -> Option<u32> {
    if token.len() > 0 && all_digits(token) && digits_value(token) <= u32::MAX {
        Some(digits_value(token) as u32)
    } else {
        None
    }
}

fn digits_chars(token: &[char]) -> (r: Option<u32>)
    ensures
        r == digits_of(token@),
{
    if token.len() == 0 || !crate::text::all_digits_in(token) {
        return None;
    }
    crate::text::digits_u32(token)
}

pub open spec fn is_x(c: char) -> bool {
    c == 'x' || c == 'X'
}

/// The first white-space character of `s` at or after `i`.
pub open spec fn first_ws(s: Seq<char>, i: int) -> Option<int>
    decreases s.len() - i,
{
    if i < 0 || i >= s.len() {
        None
    } else if is_ws(s[i]) {
        Some(i)
    } else {
        first_ws(s, i + 1)
    }
}

/// The last white-space character of `s` at or before `i`.
pub open spec fn last_ws(s: Seq<char>, i: int) -> Option<int>
    decreases i + 1,
{
    if i < 0 || i >= s.len() {
        None
    } else if is_ws(s[i]) {
        Some(i)
    } else {
        last_ws(s, i - 1)
    }
}

/// A count at the front of the line: `3 Name`, `3x Name`, `3 x Name`.
pub open spec fn leading_count(line: Seq<char>) -> Option<(u32, Seq<char>)> {
    match first_ws(line, 0) {
        Some(k) => {
            let first = line.take(k);
            let token = if first.len() > 0 && is_x(first.last()) {
                first.drop_last()
            } else {
                first
            };
            match digits_of(token) {
                Some(count) => {
                    let rest = trim_start(line.skip(k + 1));
                    let rest2 = if rest.len() > 1 && is_x(rest[0]) && is_ws(rest[1]) {
                        trim_start(rest.drop_first())
                    } else {
                        rest
                    };
                    Some((count, rest2))
                },
                None => None,
            }
        },
        None => None,
    }
}

/// A count at the end of the line: `Name x3`, `Name 3`... the latter only
/// as `Name x 3`.
pub open spec fn trailing_count(line: Seq<char>) -> Option<(u32, Seq<char>)> {
    match last_ws(line, line.len() - 1) {
        Some(k) => {
            let name = line.take(k);
            let last = line.skip(k + 1);
            let x_count = if last.len() > 0 && is_x(last[0]) {
                digits_of(last.drop_first())
            } else {
                None
            };
            match x_count {
                Some(count) => Some((count, trim_end(name))),
                None => match digits_of(last) {
                    Some(count) => {
                        let n = trim_end(name);
                        if n.len() > 1 && is_x(n.last()) && is_ws(n[n.len() - 2]) {
                            Some((count, trim_end(n.drop_last())))
                        } else {
                            None
                        }
                    },
                    None => None,
                },
            }
        },
        None => None,
    }
}

/// What `split_count` gives: a count written before or after the name, and
/// the name; or no count and the whole line.
pub open spec fn count_split(line: Seq<char>) -> (Option<u32>, Seq<char>) {
    match leading_count(line) {
        Some((count, rest)) => (Some(count), rest),
        None => match trailing_count(line) {
            Some((count, name)) => (Some(count), name),
            None => (None, line),
        },
    }
}

fn first_ws_of(s: &[char]) -> (r: Option<usize>)
    ensures
        match r {
            Some(k) => first_ws(s@, 0) == Some(k as int) && k < s@.len(),
            None => first_ws(s@, 0) is None,
        },
{
    let mut i: usize = 0;
    while i < s.len()
        invariant
            i <= s@.len(),
            first_ws(s@, 0) == first_ws(s@, i as int),
        decreases s@.len() - i,
    {
        if ws(s[i]) {
            return Some(i);
        }
        i = i + 1;
    }
    None
}

fn last_ws_of(s: &[char]) -> (r: Option<usize>)
    ensures
        match r {
            Some(k) => last_ws(s@, s@.len() - 1) == Some(k as int) && k < s@.len(),
            None => last_ws(s@, s@.len() - 1) is None,
        },
{
    let mut i: usize = s.len();
    while i > 0
        invariant
            i <= s@.len(),
            last_ws(s@, s@.len() - 1) == last_ws(s@, i - 1),
        decreases i,
    {
        if ws(s[i - 1]) {
            return Some(i - 1);
        }
        i = i - 1;
    }
    None
}

fn leading_count_of(line: &[char]) -> (r: Option<(u32, Vec<char>)>)
    ensures
        match r {
            Some((c, rest)) => leading_count(line@) == Some((c, rest@)),
            None => leading_count(line@) is None,
        },
{
    let len = line.len();
    match first_ws_of(line) {
        Some(k) => {
            let first = slice(line, 0, k);
            assert(first@ =~= line@.take(k as int));
            let token = if k > 0 && (first[k - 1] == 'x' || first[k - 1] == 'X') {
                let t = slice(first.as_slice(), 0, k - 1);
                assert(t@ =~= first@.drop_last());
                t
            } else {
                first
            };
            match digits_chars(token.as_slice()) {
                Some(count) => {
                    let after = slice(line, k + 1, len);
                    assert(after@ =~= line@.skip(k + 1));
                    let rest = trim_start_of(after.as_slice());
                    if rest.len() > 1 && (rest[0] == 'x' || rest[0] == 'X') && ws(rest[1]) {
                        let tail = slice(rest.as_slice(), 1, rest.len());
                        assert(tail@ =~= rest@.drop_first());
                        Some((count, trim_start_of(tail.as_slice())))
                    } else {
                        Some((count, rest))
                    }
                },
                None => None,
            }
        },
        None => None,
    }
}

fn trailing_count_of(line: &[char]) -> (r: Option<(u32, Vec<char>)>)
    ensures
        match r {
            Some((c, name)) => trailing_count(line@) == Some((c, name@)),
            None => trailing_count(line@) is None,
        },
{
    let len = line.len();
    match last_ws_of(line) {
        Some(k) => {
            let name = slice(line, 0, k);
            assert(name@ =~= line@.take(k as int));
            let last = slice(line, k + 1, len);
            assert(last@ =~= line@.skip(k + 1));
            let x_count = if last.len() > 0 && (last[0] == 'x' || last[0] == 'X') {
                let digits = slice(last.as_slice(), 1, last.len());
                assert(digits@ =~= last@.drop_first());
                digits_chars(digits.as_slice())
            } else {
                None
            };
            match x_count {
                Some(count) => Some((count, trim_end_of(name.as_slice()))),
                None => match digits_chars(last.as_slice()) {
                    Some(count) => {
                        let n = trim_end_of(name.as_slice());
                        let m = n.len();
                        if m > 1 && (n[m - 1] == 'x' || n[m - 1] == 'X') && ws(n[m - 2]) {
                            let front = slice(n.as_slice(), 0, m - 1);
                            assert(front@ =~= n@.drop_last());
                            Some((count, trim_end_of(front.as_slice())))
                        } else {
                            None
                        }
                    },
                    None => None,
                },
            }
        },
        None => None,
    }
}

fn split_count_chars(line: &[char]) -> (r: (Option<u32>, Vec<char>))
    ensures
        (r.0, r.1@) == count_split(line@),
{
    match leading_count_of(line) {
        Some((count, rest)) => (Some(count), rest),
        None => match trailing_count_of(line) {
            Some((count, name)) => (Some(count), name),
            None => (None, crate::text::copy(line)),
        },
    }
}

/// A line's copy count and card name: `3 Name`, `3x Name`, `3 x Name`,
/// `Name x3` and `Name x 3` carry a count; any other line is all name.
pub fn split_count(line: &str) -> (r: (Option<u32>, String))
    ensures
        (r.0, r.1@) == count_split(line@),
{
    let cs = chars_of(line);
    let (count, name) = split_count_chars(cs.as_slice());
    (count, string_of(name.as_slice()))
}

/// A line that is a count and nothing else (`3`, `3x`).
pub open spec fn count_only(line: Seq<char>) -> bool {
    let bare = if line.len() > 0 && is_x(line.last()) {
        line.drop_last()
    } else {
        line
    };
    bare.len() > 0 && all_digits(bare)
}

fn count_only_chars(line: &[char]) -> (r: bool)
    ensures
        r == count_only(line@),
{
    let n = line.len();
    let end = if n > 0 && (line[n - 1] == 'x' || line[n - 1] == 'X') {
        n - 1
    } else {
        n
    };
    assert(line@.subrange(0, end as int) =~= (if n > 0 && is_x(line@.last()) {
        line@.drop_last()
    } else {
        line@
    }));
    end > 0 && all_digits_between(line, 0, end)
}

/// A line that is neither card nor header: blank, a `# Title`, or a `//`
/// comment.
pub open spec fn ignored_line(line: Seq<char>) -> bool {
    line.len() == 0 || title_line(line) || (line.len() >= 2 && line[0] == '/' && line[1] == '/')
}

/// What one line of a list does to the reading.
pub enum LineRead<G: Game> {
    Skip,
    Open(G::Section),
    Card(Seq<char>, u32, Option<G::Section>),
    Refuse(TextError),
}

/// What line `number` (counting from 1) does under the open `section`: a
/// blank, title or comment line, or a decorated line that names no section,
/// is skipped, as is any card under a section the game leaves out; a line
/// whose header names a section opens it; any other line is a card, with a
/// count, a cleaned name and the section it is listed under, or refused for
/// a missing name or a zero count.
pub open spec fn read_line<V: TextVocabulary>(
    raw: Seq<char>,
    section: Option<<V::Game as Game>::Section>,
    number: int,
) -> LineRead<V::Game> {
    let line = trim(raw);
    if ignored_line(line) {
        LineRead::Skip
    } else if V::section_named(header_text(line)) is Some {
        LineRead::Open(V::section_named(header_text(line))->Some_0)
    } else if unwrapped(line) != line {
        LineRead::Skip
    } else if section is Some && V::skipped(section->Some_0) {
        LineRead::Skip
    } else {
        let (card_line, line_section) = match V::inline_part(line) {
            Some((rest, inline)) => (trim_start(rest), Some(inline)),
            None => (line, section),
        };
        if count_only(card_line) {
            LineRead::Refuse(TextError::BlankName(number as usize))
        } else {
            let (count, name) = count_split(card_line);
            if count == Some(0u32) {
                LineRead::Refuse(TextError::ZeroCount(number as usize))
            } else if V::clean(name).len() == 0 {
                LineRead::Refuse(TextError::BlankName(number as usize))
            } else {
                LineRead::Card(
                    V::clean(name),
                    match count {
                        Some(c) => c,
                        None => 1u32,
                    },
                    line_section,
                )
            }
        }
    }
}

/// A card line as read: cleaned name, count and section.
pub type CardLine<G> = (Seq<char>, u32, Option<<G as Game>::Section>);

/// The cards the lines give and the section open after them, or the first
/// refusal.
pub open spec fn read_lines<V: TextVocabulary>(ls: Seq<Seq<char>>) -> Result<
    (Seq<CardLine<V::Game>>, Option<<V::Game as Game>::Section>),
    TextError,
>
    decreases ls.len(),
{
    if ls.len() == 0 {
        Ok((Seq::empty(), None))
    } else {
        match read_lines::<V>(ls.drop_last()) {
            Err(e) => Err(e),
            Ok((cards, section)) => match read_line::<V>(ls.last(), section, ls.len() as int) {
                LineRead::Skip => Ok((cards, section)),
                LineRead::Open(next) => Ok((cards, Some(next))),
                LineRead::Card(name, count, s) => Ok((cards.push((name, count, s)), section)),
                LineRead::Refuse(e) => Err(e),
            },
        }
    }
}

/// A refusal one line further down the list.
pub open spec fn moved_down(e: TextError) -> TextError {
    match e {
        TextError::Empty => TextError::Empty,
        TextError::BlankName(n) => TextError::BlankName((n + 1) as usize),
        TextError::ZeroCount(n) => TextError::ZeroCount((n + 1) as usize),
    }
}

/// A reading with its refusal, if any, one line further down.
pub open spec fn read_moved_down<G: Game>(
    r: Result<(Seq<CardLine<G>>, Option<G::Section>), TextError>,
) -> Result<(Seq<CardLine<G>>, Option<G::Section>), TextError> {
    match r {
        Ok(x) => Ok(x),
        Err(e) => Err(moved_down(e)),
    }
}

proof fn lemma_read_line_moved<V: TextVocabulary>(raw: Seq<char>, section: Option<<V::Game as Game>::Section>, n: int)
    requires
        0 <= n,
        n + 1 <= usize::MAX,
    ensures
        read_line::<V>(raw, section, n + 1) == match read_line::<V>(raw, section, n) {
            LineRead::Refuse(e) => LineRead::<V::Game>::Refuse(moved_down(e)),
            other => other,
        },
{
}

proof fn lemma_blank_line_skips<V: TextVocabulary>(section: Option<<V::Game as Game>::Section>, n: int)
    ensures
        read_line::<V>(Seq::<char>::empty(), section, n) == LineRead::<V::Game>::Skip,
{
    assert(trim_start(Seq::<char>::empty()) == Seq::<char>::empty());
    assert(trim_end(Seq::<char>::empty()) == Seq::<char>::empty());
}

/// A blank line put before a list reads as the list, any refusal one line
/// further down.
pub proof fn lemma_blank_line_before<V: TextVocabulary>(ls: Seq<Seq<char>>)
    requires
        ls.len() + 1 <= usize::MAX,
    ensures
        read_lines::<V>(seq![Seq::<char>::empty()] + ls) == read_moved_down::<V::Game>(read_lines::<V>(ls)),
    decreases ls.len(),
{
    let blank = Seq::<char>::empty();
    if ls.len() == 0 {
        assert(seq![blank] + ls =~= seq![blank]);
        assert(seq![blank].drop_last() =~= Seq::<Seq<char>>::empty());
        lemma_blank_line_skips::<V>(None, 1);
        assert(read_lines::<V>(Seq::<Seq<char>>::empty()) == Ok::<(Seq<CardLine<V::Game>>, Option<<V::Game as Game>::Section>), TextError>((Seq::empty(), None)));
        assert(read_lines::<V>(seq![blank]) == read_lines::<V>(Seq::<Seq<char>>::empty()));
    } else {
        lemma_blank_line_before::<V>(ls.drop_last());
        let full = seq![blank] + ls;
        assert(full.drop_last() =~= seq![blank] + ls.drop_last());
        assert(full.last() == ls.last());
        match read_lines::<V>(ls.drop_last()) {
            Err(e) => {},
            Ok((cards, section)) => {
                lemma_read_line_moved::<V>(ls.last(), section, ls.len() as int);
                assert(full.len() == ls.len() + 1);
            },
        }
    }
}

/// What `parse_text` reads from a list: its cards, or why not.
pub open spec fn text_read<V: TextVocabulary>(input: Seq<char>) -> Result<Seq<CardLine<V::Game>>, TextError> {
    match read_lines::<V>(lines(input)) {
        Err(e) => Err(e),
        Ok((cards, _)) => if cards.len() == 0 {
            Err(TextError::Empty)
        } else {
            Ok(cards)
        },
    }
}

/// The parsed entries are the card lines read, each identifier naming its
/// line's cleaned name.
pub open spec fn entries_read<V: TextVocabulary>(entries: Seq<ParsedEntry<V::Game>>, cards: Seq<CardLine<V::Game>>) -> bool {
    &&& entries.len() == cards.len()
    &&& forall|i: int| 0 <= i < entries.len() ==> {
        &&& V::identifies((#[trigger] entries[i]).identifier, cards[i].0)
        &&& entries[i].count == cards[i].1
        &&& entries[i].section == cards[i].2
    }
}

proof fn lemma_read_lines_err_sticks<V: TextVocabulary>(ls: Seq<Seq<char>>, k: int)
    requires
        0 <= k <= ls.len(),
        read_lines::<V>(ls.take(k)) is Err,
    ensures
        read_lines::<V>(ls) == read_lines::<V>(ls.take(k)),
    decreases ls.len() - k,
{
    if k < ls.len() {
        assert(ls.take(k + 1).drop_last() =~= ls.take(k));
        lemma_read_lines_err_sticks::<V>(ls, k + 1);
    } else {
        assert(ls.take(k) =~= ls);
    }
}

/// Reads a deck list line by line. A line that names a section (as the
/// game's vocabulary reads its header) opens that section; a card line
/// gives an entry under the open section.
pub fn parse_text<V: TextVocabulary>(input: &str) -> (r: Result<ParsedDeck<V::Game>, TextError>)
    ensures
        match text_read::<V>(input@) {
            Ok(cards) => r matches Ok(deck) && entries_read::<V>(deck.entries@, cards),
            Err(e) => r == Err::<ParsedDeck<V::Game>, TextError>(e),
        },
{
    let cs = chars_of(input);
    let all = lines_of(cs.as_slice());
    let ghost ls = lines(input@);
    let mut deck: ParsedDeck<V::Game> = ParsedDeck::new();
    let mut section: Option<<V::Game as Game>::Section> = None;
    let ghost mut cards: Seq<CardLine<V::Game>> = Seq::empty();
    let mut index: usize = 0;
    assert(ls.take(0) =~= Seq::<Seq<char>>::empty());
    while index < all.len()
        invariant
            index <= all@.len(),
            views(all@) == ls,
            ls == lines(input@),
            read_lines::<V>(ls.take(index as int)) == Ok::<(Seq<CardLine<V::Game>>, Option<<V::Game as Game>::Section>), TextError>((cards, section)),
            entries_read::<V>(deck.entries@, cards),
        decreases all@.len() - index,
    {
        let line_number = index + 1;
        let raw = &all[index];
        assert(raw@ == ls[index as int]);
        assert(ls.take(index as int + 1).drop_last() =~= ls.take(index as int));
        assert(ls.take(index as int + 1).last() == ls[index as int]);
        let ghost step = read_line::<V>(ls[index as int], section, index as int + 1);
        let line = trim_of(raw.as_slice());
        let n = line.len();
        let ignored = n == 0 || (line[0] == '#' && !(n > 1 && line[1] == '#')) || (n >= 2 && line[0] == '/' && line[1] == '/');
        assert(ignored == ignored_line(line@));
        index = index + 1;
        if ignored {
            continue;
        }
        let header = string_of(header_chars(line.as_slice()).as_slice());
        match V::section(header.as_str()) {
            Some(next) => {
                section = Some(next);
                continue;
            },
            None => {},
        }
        let unwrapped_line = unwrap_header_chars(line.as_slice());
        if !same(unwrapped_line.as_slice(), line.as_slice()) {
            continue;
        }
        let skipped = match section {
            Some(s) => V::skip(s),
            None => false,
        };
        if skipped {
            continue;
        }
        let mut line_section = section;
        let line_text = string_of(line.as_slice());
        let card_line = match V::inline_section(line_text.as_str()) {
            Some((rest, inline)) => {
                line_section = Some(inline);
                trim_start_of(chars_of(rest.as_str()).as_slice())
            },
            None => line,
        };
        if count_only_chars(card_line.as_slice()) {
            proof {
                lemma_read_lines_err_sticks::<V>(ls, index as int);
                assert(ls.take(ls.len() as int) =~= ls);
            }
            return Err(TextError::BlankName(line_number));
        }
        let (count, name) = split_count_chars(card_line.as_slice());
        if count == Some(0u32) {
            proof {
                lemma_read_lines_err_sticks::<V>(ls, index as int);
                assert(ls.take(ls.len() as int) =~= ls);
            }
            return Err(TextError::ZeroCount(line_number));
        }
        let name_text = string_of(name.as_slice());
        let cleaned = V::clean_name(name_text.as_str());
        if cleaned.as_str().is_empty() {
            proof {
                lemma_read_lines_err_sticks::<V>(ls, index as int);
                assert(ls.take(ls.len() as int) =~= ls);
            }
            return Err(TextError::BlankName(line_number));
        }
        let count = match count {
            Some(c) => c,
            None => 1,
        };
        let ghost before = deck.entries@;
        deck.entries.push(ParsedEntry {
            identifier: V::identifier(cleaned.as_str()),
            count,
            section: line_section,
        });
        proof {
            cards = cards.push((cleaned@, count, line_section));
            assert forall|i: int| 0 <= i < deck.entries@.len() implies {
                &&& V::identifies((#[trigger] deck.entries@[i]).identifier, cards[i].0)
                &&& deck.entries@[i].count == cards[i].1
                &&& deck.entries@[i].section == cards[i].2
            } by {
                if i < before.len() {
                    assert(deck.entries@[i] == before[i]);
                }
            }
        }
    }
    assert(ls.take(index as int) =~= ls);
    if deck.entries.len() == 0 {
        return Err(TextError::Empty);
    }
    Ok(deck)
}

} // verus!
