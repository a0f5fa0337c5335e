//! TCG Arena deck exports: the text export, and the import link that
//! carries a text export in base64.
use vstd::prelude::*;
use crate::deck::text_list::{entries_read, text_error_message, text_read, CardLine};
use crate::riftbound::text_list::{list_body, parse_text as parse_list};
use crate::riftbound::{ParsedDeck, Riftbound, Section};
use crate::text::{chars_of, trim_start, trim_start_of, extend, is, lower, lower_all, lower_seq, pieces, pieces_of, slice, split_once, split_once_at, split_once_char, starts, starts_with_str, string_of, trim, trim_of, views};
use vstd::utf8::{decode_utf8, encode_utf8, valid_utf8};
use crate::json::{array_in, field, get, json_document, read_json, text_in, Json};
use crate::riftbound::{Identifier, IdentifierView, ParsedEntry};

verus! {

pub const HOST: &'static str = "tcg-arena.fr";
pub const MAX_INPUT_BYTES: usize = 1048576usize;
pub const MAX_ENTRIES: usize = 512usize;
pub const MAX_CARD_COUNT: u32 = 4096u32;
pub const MAX_TOTAL_CARDS: u64 = 4096u64;

/// A deck read from TCG Arena, with the title the export gave it.
#[derive(Debug, Clone, PartialEq, Eq)]
pub struct Import {
    pub deck: ParsedDeck,
    pub title: Option<String>,
}

/// Why a TCG Arena export or link does not read.
#[derive(Debug, Clone, PartialEq, Eq)]
pub enum Error {
    Empty,
    TooLarge,
    InvalidJson(String),
    InvalidExport(String),
    InvalidUrl(String),
}

/// An error as plain values.
pub enum Fault {
    Empty,
    TooLarge,
    Json(Seq<char>),
    Export(Seq<char>),
    Url(Seq<char>),
}

impl View for Error {
    type V = Fault;

    open spec fn view(&self) -> Fault {
        match self {
            Error::Empty => Fault::Empty,
            Error::TooLarge => Fault::TooLarge,
            Error::InvalidJson(r) => Fault::Json(r@),
            Error::InvalidExport(r) => Fault::Export(r@),
            Error::InvalidUrl(r) => Fault::Url(r@),
        }
    }
}

/// The message a reader sees for an error.
pub open spec fn fault_message(f: Fault) -> Seq<char> {
    match f {
        Fault::Empty => "the TCG Arena deck export is empty"@,
        Fault::TooLarge => "the TCG Arena deck export is too large"@,
        Fault::Json(r) => "the TCG Arena deck JSON is invalid: "@ + r,
        Fault::Export(r) => "the TCG Arena deck export is invalid: "@ + r,
        Fault::Url(r) => "the TCG Arena deck URL is invalid: "@ + r,
    }
}

impl Error {
    pub fn message(&self) -> (r: String)
        ensures
            r@ == fault_message(self@),
    {
        let (head, reason) = match self {
            Error::Empty => {
                return string_of(chars_of("the TCG Arena deck export is empty").as_slice());
            },
            Error::TooLarge => {
                return string_of(chars_of("the TCG Arena deck export is too large").as_slice());
            },
            Error::InvalidJson(r) => ("the TCG Arena deck JSON is invalid: ", r),
            Error::InvalidExport(r) => ("the TCG Arena deck export is invalid: ", r),
            Error::InvalidUrl(r) => ("the TCG Arena deck URL is invalid: ", r),
        };
        let mut out = chars_of(head);
        extend(&mut out, chars_of(reason.as_str()).as_slice());
        string_of(out.as_slice())
    }
}

fn url_error(why: &str) -> (e: Error)
    ensures
        e@ == Fault::Url(why@),
{
    Error::InvalidUrl(string_of(chars_of(why).as_slice()))
}

/// Whether an export is empty or too large to read.
pub open spec fn size_fault(input: Seq<char>) -> Option<Fault> {
    if input.len() == 0 {
        Some(Fault::Empty)
    } else if encode_utf8(input).len() > MAX_INPUT_BYTES {
        Some(Fault::TooLarge)
    } else {
        None
    }
}

pub fn size_check(input: &str) -> (r: Result<(), Error>)
    ensures
        match size_fault(input@) {
            Some(f) => r matches Err(e) && e@ == f,
            None => r is Ok,
        },
{
    if input.is_empty() {
        return Err(Error::Empty);
    }
    if input.as_bytes().len() > MAX_INPUT_BYTES {
        return Err(Error::TooLarge);
    }
    Ok(())
}

/// A category name without spaces and dashes.
pub open spec fn squeezed(s: Seq<char>) -> Seq<char>
    decreases s.len(),
{
    if s.len() == 0 {
        Seq::empty()
    } else if s.last() == ' ' || s.last() == '-' {
        squeezed(s.drop_last())
    } else {
        squeezed(s.drop_last()).push(s.last())
    }
}

/// The zone a category names, any case, spaces and dashes aside; any
/// other category is the main deck.
pub open spec fn category_section(category: Seq<char>) -> Section {
    let c = squeezed(lower_seq(category));
    if c == "legend"@ {
        Section::Legend
    } else if c == "chosen_champion"@ || c == "chosenchampion"@ || c == "champion"@ {
        Section::Champion
    } else if c == "battlefields"@ || c == "battlefield"@ {
        Section::Battlefields
    } else if c == "runes"@ || c == "rune"@ {
        Section::Runes
    } else if c == "sideboard"@ || c == "side"@ {
        Section::Sideboard
    } else {
        Section::Main
    }
}

pub fn section(category: &str) -> (r: Section)
    ensures
        r == category_section(category@),
{
    let cs = chars_of(category);
    let mut out: Vec<char> = Vec::new();
    let mut i: usize = 0;
    while i < cs.len()
        invariant
            i <= cs@.len(),
            cs@ == category@,
            out@ == squeezed(lower_seq(cs@.take(i as int))),
        decreases cs@.len() - i,
    {
        let c = crate::text::to_lower(cs[i]);
        assert(lower_seq(cs@.take(i as int + 1)).drop_last() =~= lower_seq(cs@.take(i as int)));
        assert(lower_seq(cs@.take(i as int + 1)).last() == c);
        if c != ' ' && c != '-' {
            out.push(c);
        }
        i = i + 1;
    }
    assert(cs@.take(i as int) =~= cs@);
    let c = out.as_slice();
    if crate::text::is(c, "legend") {
        Section::Legend
    } else if crate::text::is(c, "chosen_champion") || crate::text::is(c, "chosenchampion") || crate::text::is(c, "champion") {
        Section::Champion
    } else if crate::text::is(c, "battlefields") || crate::text::is(c, "battlefield") {
        Section::Battlefields
    } else if crate::text::is(c, "runes") || crate::text::is(c, "rune") {
        Section::Runes
    } else if crate::text::is(c, "sideboard") || crate::text::is(c, "side") {
        Section::Sideboard
    } else {
        Section::Main
    }
}

/// The copies the card lines ask for in all.
pub open spec fn lines_total(cards: Seq<CardLine<Riftbound>>) -> int
    decreases cards.len(),
{
    if cards.len() == 0 {
        0
    } else {
        lines_total(cards.drop_last()) + cards.last().1
    }
}

/// Why a list of card lines is refused, if it is: too many lines or
/// copies, or no copies at all.
pub open spec fn bound_fault(cards: Seq<CardLine<Riftbound>>) -> Option<Fault> {
    if cards.len() > MAX_ENTRIES {
        Some(Fault::TooLarge)
    } else if lines_total(cards) > MAX_TOTAL_CARDS {
        Some(Fault::TooLarge)
    } else if lines_total(cards) == 0 {
        Some(Fault::Empty)
    } else {
        None
    }
}

/// The copies the entries ask for in all.
pub open spec fn entries_total(entries: Seq<crate::riftbound::ParsedEntry>) -> int
    decreases entries.len(),
{
    if entries.len() == 0 {
        0
    } else {
        entries_total(entries.drop_last()) + entries.last().count
    }
}

proof fn lemma_entries_total_grows(entries: Seq<crate::riftbound::ParsedEntry>, i: int)
    requires
        0 <= i <= entries.len(),
    ensures
        entries_total(entries.take(i)) <= entries_total(entries),
    decreases entries.len() - i,
{
    if i < entries.len() {
        assert(entries.take(i + 1).drop_last() =~= entries.take(i));
        lemma_entries_total_grows(entries, i + 1);
    } else {
        assert(entries.take(i) =~= entries);
    }
}

/// Refuses a deck with more than `MAX_ENTRIES` lines or
/// `MAX_TOTAL_CARDS` copies, or with no copies at all.
pub fn bounded(deck: ParsedDeck) -> (r: Result<ParsedDeck, Error>)
    ensures
        deck.entries@.len() > MAX_ENTRIES ==> (r matches Err(e) && e@ == Fault::TooLarge),
        deck.entries@.len() <= MAX_ENTRIES ==> (if entries_total(deck.entries@) > MAX_TOTAL_CARDS {
            r matches Err(e) && e@ == Fault::TooLarge
        } else if entries_total(deck.entries@) == 0 {
            r matches Err(e) && e@ == Fault::Empty
        } else {
            r == Ok::<ParsedDeck, Error>(deck)
        }),
{
    if deck.entries.len() > MAX_ENTRIES {
        return Err(Error::TooLarge);
    }
    let mut total: u64 = 0;
    let mut i: usize = 0;
    while i < deck.entries.len()
        invariant
            i <= deck.entries@.len() <= MAX_ENTRIES,
            total == entries_total(deck.entries@.take(i as int)),
            total <= MAX_TOTAL_CARDS,
        decreases deck.entries@.len() - i,
    {
        assert(deck.entries@.take(i as int + 1).drop_last() =~= deck.entries@.take(i as int));
        total = total + deck.entries[i].count as u64;
        i = i + 1;
        if total > MAX_TOTAL_CARDS {
            proof {
                lemma_entries_total_grows(deck.entries@, i as int);
            }
            return Err(Error::TooLarge);
        }
    }
    assert(deck.entries@.take(i as int) =~= deck.entries@);
    if total == 0 {
        return Err(Error::Empty);
    }
    Ok(deck)
}

proof fn lemma_totals_agree(entries: Seq<crate::riftbound::ParsedEntry>, cards: Seq<CardLine<Riftbound>>)
    requires
        entries_read::<Riftbound>(entries, cards),
    ensures
        entries_total(entries) == lines_total(cards),
    decreases entries.len(),
{
    if entries.len() > 0 {
        let e = entries.drop_last();
        let c = cards.drop_last();
        assert forall|i: int| 0 <= i < e.len() implies {
            &&& <Riftbound as crate::deck::text_list::TextVocabulary>::identifies((#[trigger] e[i]).identifier, c[i].0)
            &&& e[i].count == c[i].1
            &&& e[i].section == c[i].2
        } by {
            assert(e[i] == entries[i]);
            assert(c[i] == cards[i]);
        }
        lemma_totals_agree(e, c);
        assert(entries.last() == entries[entries.len() - 1]);
        assert(cards.last() == cards[cards.len() - 1]);
    }
}

/// What `parse_text` reads from a text export: its card lines, or why not.
pub open spec fn text_import(input: Seq<char>) -> Result<Seq<CardLine<Riftbound>>, Fault> {
    match size_fault(input) {
        Some(f) => Err(f),
        None => match text_read::<Riftbound>(list_body(input)) {
            Err(e) => Err(Fault::Export(text_error_message(e))),
            Ok(cards) => match bound_fault(cards) {
                Some(f) => Err(f),
                None => Ok(cards),
            },
        },
    }
}

/// Reads a TCG Arena text export.
pub fn parse_text(input: &str) -> (r: Result<Import, Error>)
    ensures
        match text_import(input@) {
            Ok(cards) => r matches Ok(imp) && entries_read::<Riftbound>(imp.deck.entries@, cards) && imp.title is None,
            Err(f) => r matches Err(e) && e@ == f,
        },
{
    match size_check(input) {
        Ok(()) => {},
        Err(e) => {
            return Err(e);
        },
    }
    let deck = match parse_list(input) {
        Ok(deck) => deck,
        Err(error) => {
            return Err(Error::InvalidExport(error.message()));
        },
    };
    proof {
        let cards = text_read::<Riftbound>(list_body(input@))->Ok_0;
        lemma_totals_agree(deck.entries@, cards);
    }
    match bounded(deck) {
        Ok(deck) => Ok(Import { deck, title: None }),
        Err(e) => Err(e),
    }
}

/// `String::from_utf8`: the text the bytes spell, when they are valid
/// UTF-8. The contract claims what std documents: the call succeeds
/// exactly on valid UTF-8, and the string holds the characters the bytes
/// encode.
#[verifier::external_body]
fn string_from_utf8(bytes: Vec<u8>) -> (r: Option<String>)
    ensures
        r is Some <==> valid_utf8(bytes@),
        r matches Some(s) ==> s@ == decode_utf8(bytes@),
{
    String::from_utf8(bytes).ok()
}

/// The text the bytes spell, when they are valid UTF-8.
pub open spec fn utf8_text(bytes: Seq<u8>) -> Option<Seq<char>> {
    if valid_utf8(bytes) {
        Some(decode_utf8(bytes))
    } else {
        None
    }
}


/// The value of a hexadecimal digit byte.
pub open spec fn hex_value(b: u8) -> Option<u8> {
    if 48 <= b <= 57 {
        Some((b - 48) as u8)
    } else if 97 <= b <= 102 {
        Some((b - 97 + 10) as u8)
    } else if 65 <= b <= 70 {
        Some((b - 65 + 10) as u8)
    } else {
        None
    }
}

fn hex_of(b: u8) -> (r: Option<u8>)
    ensures
        r == hex_value(b),
{
    if 48 <= b && b <= 57 {
        Some(b - 48)
    } else if 97 <= b && b <= 102 {
        Some(b - 97 + 10)
    } else if 65 <= b && b <= 70 {
        Some(b - 65 + 10)
    } else {
        None
    }
}

/// The bytes from `i` on with every `%XY` escape read as one byte; none
/// when an escape is cut short or not hexadecimal.
pub open spec fn unescaped(raw: Seq<u8>, i: int) -> Option<Seq<u8>>
    decreases raw.len() - i,
{
    if i < 0 || i >= raw.len() {
        Some(Seq::empty())
    } else if raw[i] == 37u8 {
        if i + 2 >= raw.len() {
            None
        } else {
            match (hex_value(raw[i + 1]), hex_value(raw[i + 2])) {
                (Some(h), Some(l)) => match unescaped(raw, i + 3) {
                    Some(rest) => Some(seq![(h * 16 + l) as u8] + rest),
                    None => None,
                },
                _ => None,
            }
        }
    } else {
        match unescaped(raw, i + 1) {
            Some(rest) => Some(seq![raw[i]] + rest),
            None => None,
        }
    }
}

/// What a percent-encoded parameter reads as, or why not.
pub open spec fn percent_text(value: Seq<char>) -> Result<Seq<char>, Seq<char>> {
    match unescaped(encode_utf8(value), 0) {
        None => Err("bad percent escape"@),
        Some(bytes) => match utf8_text(bytes) {
            Some(t) => Ok(t),
            None => Err("parameter is not UTF-8"@),
        },
    }
}

pub open spec fn prefixed(p: Seq<u8>, o: Option<Seq<u8>>) -> Option<Seq<u8>> {
    match o {
        Some(rest) => Some(p + rest),
        None => None,
    }
}

/// Reads a percent-encoded URL parameter.
pub fn percent_decode(value: &str) -> (r: Result<String, Error>)
    ensures
        match percent_text(value@) {
            Ok(t) => r matches Ok(s) && s@ == t,
            Err(why) => r matches Err(e) && e@ == Fault::Url(why),
        },
{
    let raw = value.as_bytes();
    let ghost all = raw@;
    let mut bytes: Vec<u8> = Vec::new();
    let mut index: usize = 0;
    assert(all == encode_utf8(value@));
    while index < raw.len()
        invariant
            index <= raw@.len(),
            raw@ == all,
            all == encode_utf8(value@),
            unescaped(all, 0) == prefixed(bytes@, unescaped(all, index as int)),
        decreases raw@.len() - index,
    {
        if raw[index] == 37u8 {
            if raw.len() - index <= 2 {
                assert(unescaped(all, index as int) is None);
                assert(unescaped(all, 0) is None);
                assert(all == encode_utf8(value@));
                assert(percent_text(value@) == Err::<Seq<char>, Seq<char>>("bad percent escape"@));
                let e = url_error("bad percent escape");
                assert(e@ == Fault::Url("bad percent escape"@));
                return Err(e);
            }
            let high = match hex_of(raw[index + 1]) {
                Some(h) => h,
                None => {
                    assert(unescaped(all, index as int) is None);
                    return Err(url_error("bad percent escape"));
                },
            };
            let low = match hex_of(raw[index + 2]) {
                Some(l) => l,
                None => {
                    assert(unescaped(all, index as int) is None);
                    return Err(url_error("bad percent escape"));
                },
            };
            let ghost before = bytes@;
            bytes.push(high * 16 + low);
            assert(prefixed(before, unescaped(all, index as int)) == prefixed(bytes@, unescaped(all, index + 3))) by {
                match unescaped(all, index + 3) {
                    Some(rest) => {
                        assert(before + (seq![(high * 16 + low) as u8] + rest) =~= bytes@ + rest);
                    },
                    None => {},
                }
            }
            index = index + 3;
        } else {
            let ghost before = bytes@;
            bytes.push(raw[index]);
            assert(prefixed(before, unescaped(all, index as int)) == prefixed(bytes@, unescaped(all, index + 1))) by {
                match unescaped(all, index + 1) {
                    Some(rest) => {
                        assert(before + (seq![all[index as int]] + rest) =~= bytes@ + rest);
                    },
                    None => {},
                }
            }
            index = index + 1;
        }
    }
    assert(unescaped(all, index as int) == Some(Seq::<u8>::empty()));
    assert(bytes@ + Seq::<u8>::empty() =~= bytes@);
    match string_from_utf8(bytes) {
        Some(text) => Ok(text),
        None => Err(url_error("parameter is not UTF-8")),
    }
}

/// The value of a base64 alphabet byte.
pub open spec fn b64_value(b: u8) -> Option<u32> {
    if 65 <= b <= 90 {
        Some((b - 65) as u32)
    } else if 97 <= b <= 122 {
        Some((b - 97 + 26) as u32)
    } else if 48 <= b <= 57 {
        Some((b - 48 + 52) as u32)
    } else if b == 43 {
        Some(62u32)
    } else if b == 47 {
        Some(63u32)
    } else {
        None
    }
}

fn b64_of(b: u8) -> (r: Option<u32>)
    ensures
        r == b64_value(b),
        r matches Some(v) ==> v < 64,
{
    if 65 <= b && b <= 90 {
        Some((b - 65) as u32)
    } else if 97 <= b && b <= 122 {
        Some((b - 97 + 26) as u32)
    } else if 48 <= b && b <= 57 {
        Some((b - 48 + 52) as u32)
    } else if b == 43 {
        Some(62)
    } else if b == 47 {
        Some(63)
    } else {
        None
    }
}

/// The number of `=` bytes the text ends with.
pub open spec fn trailing_pads(b: Seq<u8>) -> nat
    decreases b.len(),
{
    if b.len() > 0 && b.last() == 61u8 {
        trailing_pads(b.drop_last()) + 1
    } else {
        0
    }
}

/// The decoder's state after `body`: bytes so far, pending bits and how
/// many; or why it stopped.
pub open spec fn b64_state(body: Seq<u8>) -> Result<(Seq<u8>, u32, u32), Fault>
    decreases body.len(),
{
    if body.len() == 0 {
        Ok((Seq::empty(), 0, 0))
    } else {
        match b64_state(body.drop_last()) {
            Err(f) => Err(f),
            Ok((out, buffer, bits)) => {
                let b = body.last();
                match b64_value(b) {
                    None => if b == 61u8 {
                        Err(Fault::Url("deck has malformed base64 padding"@))
                    } else {
                        Err(Fault::Url("deck is not base64"@))
                    },
                    Some(v) => {
                        let buffer2 = ((buffer << 6u32) | v) as u32;
                        let bits2 = (bits + 6) as u32;
                        if bits2 >= 8 {
                            let bits3 = (bits2 - 8) as u32;
                            let out2 = out.push((buffer2 >> bits3) as u8);
                            if out2.len() > MAX_INPUT_BYTES {
                                Err(Fault::TooLarge)
                            } else {
                                Ok((out2, (buffer2 & (((1u32 << bits3) - 1) as u32)) as u32, bits3))
                            }
                        } else {
                            Ok((out, buffer2, bits2))
                        }
                    },
                }
            },
        }
    }
}

/// What a base64 deck parameter reads as: padding whole and at the end
/// only, every other byte from the alphabet, no bits left over, and the
/// bytes valid UTF-8.
pub open spec fn base64_text(input: Seq<char>) -> Result<Seq<char>, Fault> {
    let b = encode_utf8(input);
    let pads = trailing_pads(b);
    let padding = Fault::Url("deck has malformed base64 padding"@);
    if b.len() == 0 || b.len() % 4 != 0 {
        Err(padding)
    } else if pads > 2 || b.take(b.len() - pads).contains(61u8) {
        Err(padding)
    } else {
        match b64_state(b.take(b.len() - pads)) {
            Err(f) => Err(f),
            Ok((out, buffer, _)) => if buffer != 0 {
                Err(padding)
            } else {
                match utf8_text(out) {
                    Some(t) => Ok(t),
                    None => Err(Fault::Url("deck is not UTF-8"@)),
                }
            },
        }
    }
}

proof fn lemma_b64_state_err_sticks(body: Seq<u8>, k: int)
    requires
        0 <= k <= body.len(),
        b64_state(body.take(k)) is Err,
    ensures
        b64_state(body) == b64_state(body.take(k)),
    decreases body.len() - k,
{
    if k < body.len() {
        assert(body.take(k + 1).drop_last() =~= body.take(k));
        lemma_b64_state_err_sticks(body, k + 1);
    } else {
        assert(body.take(k) =~= body);
    }
}

proof fn lemma_pending_bits(buffer: u32, v: u32, bits: u32)
    requires
        bits < 8,
        buffer < (1u32 << bits),
        v < 64,
    ensures
        ((buffer << 6u32) | v) < (1u32 << (bits + 6) as u32),
        bits + 6 >= 8 ==> ((((buffer << 6u32) | v) as u32) & (((1u32 << ((bits + 6 - 8) as u32)) - 1) as u32)) < (1u32 << ((bits + 6 - 8) as u32)),
{
    assert(((buffer << 6u32) | v) < (1u32 << (bits + 6) as u32)) by (bit_vector)
        requires
            bits < 8,
            buffer < (1u32 << bits),
            v < 64,
    ;
    assert(bits + 6 >= 8 ==> ((((buffer << 6u32) | v) as u32) & (((1u32 << ((bits + 6 - 8) as u32)) - 1) as u32)) < (1u32 << ((bits + 6 - 8) as u32))) by (bit_vector)
        requires
            bits < 8,
    ;
}

/// Reads a base64 deck parameter as text.
#[verifier::loop_isolation(false)]
pub fn base64_decode(input: &str) -> (r: Result<String, Error>)
    ensures
        match base64_text(input@) {
            Ok(t) => r matches Ok(s) && s@ == t,
            Err(f) => r matches Err(e) && e@ == f,
        },
{
    let b = input.as_bytes();
    let n = b.len();
    if n == 0 || n % 4 != 0 {
        return Err(url_error("deck has malformed base64 padding"));
    }
    let mut padding: usize = 0;
    assert(b@.take(n as int) =~= b@);
    while padding < n && b[n - 1 - padding] == 61u8
        invariant
            padding <= n == b@.len(),
            trailing_pads(b@) == trailing_pads(b@.take(n - padding)) + padding,
        decreases n - padding,
    {
        assert(b@.take(n - padding).drop_last() =~= b@.take(n - padding - 1));
        assert(b@.take(n - padding).last() == b@[n - 1 - padding]);
        padding = padding + 1;
    }
    assert(trailing_pads(b@.take(n - padding)) == 0);
    assert(trailing_pads(b@) == padding);
    assert(b@ == encode_utf8(input@));
    if padding > 2 {
        assert(trailing_pads(encode_utf8(input@)) > 2);
        assert(base64_text(input@) == Err::<Seq<char>, Fault>(Fault::Url("deck has malformed base64 padding"@)));
        let e = url_error("deck has malformed base64 padding");
        assert(e@ == Fault::Url("deck has malformed base64 padding"@));
        assert(match base64_text(input@) {
            Ok(t) => false,
            Err(f) => e@ == f,
        });
        return Err(e);
    }
    let end = n - padding;
    let mut k: usize = 0;
    while k < end
        invariant
            k <= end <= n == b@.len(),
            forall|j: int| 0 <= j < k ==> b@[j] != 61u8,
        decreases end - k,
    {
        if b[k] == 61u8 {
            assert(b@.take(end as int)[k as int] == 61u8);
            assert(b@.take(end as int).contains(61u8));
            assert(base64_text(input@) == Err::<Seq<char>, Fault>(Fault::Url("deck has malformed base64 padding"@)));
            return Err(url_error("deck has malformed base64 padding"));
        }
        k = k + 1;
    }
    assert(!b@.take(end as int).contains(61u8)) by {
        if b@.take(end as int).contains(61u8) {
            let j = choose|j: int| 0 <= j < end && b@.take(end as int)[j] == 61u8;
            assert(b@[j] == 61u8);
        }
    }
    let ghost body = b@.take(end as int);
    let mut output: Vec<u8> = Vec::new();
    let mut buffer: u32 = 0;
    let mut bits: u32 = 0;
    let mut i: usize = 0;
    assert(body.take(0) =~= Seq::<u8>::empty());
    assert(0u32 < (1u32 << 0u32)) by (bit_vector);
    while i < end
        invariant
            i <= end <= b@.len(),
            body == b@.take(end as int),
            b64_state(body.take(i as int)) == Ok::<(Seq<u8>, u32, u32), Fault>((output@, buffer, bits)),
            bits < 8,
            buffer < (1u32 << bits),
        decreases end - i,
    {
        assert(body.take(i as int + 1).drop_last() =~= body.take(i as int));
        assert(body.take(i as int + 1).last() == b@[i as int]);
        let byte = b[i];
        let value = match b64_of(byte) {
            Some(v) => v,
            None => {
                proof {
                    lemma_b64_state_err_sticks(body, i as int + 1);
                }
                assert(b64_state(body) == b64_state(body.take(i as int + 1)));
                if byte == 61u8 {
                    assert(base64_text(input@) == Err::<Seq<char>, Fault>(Fault::Url("deck has malformed base64 padding"@)));
                    return Err(url_error("deck has malformed base64 padding"));
                }
                assert(base64_text(input@) == Err::<Seq<char>, Fault>(Fault::Url("deck is not base64"@)));
                return Err(url_error("deck is not base64"));
            },
        };
        proof {
            lemma_pending_bits(buffer, value, bits);
        }
        buffer = (buffer << 6) | value;
        bits = bits + 6;
        if bits >= 8 {
            bits = bits - 8;
            output.push((buffer >> bits) as u8);
            buffer = buffer & ((1u32 << bits) - 1);
            if output.len() > MAX_INPUT_BYTES {
                proof {
                    lemma_b64_state_err_sticks(body, i as int + 1);
                }
                assert(base64_text(input@) == Err::<Seq<char>, Fault>(Fault::TooLarge));
                return Err(Error::TooLarge);
            }
        }
        i = i + 1;
    }
    assert(body.take(i as int) =~= body);
    if buffer != 0 {
        return Err(url_error("deck has malformed base64 padding"));
    }
    match string_from_utf8(output) {
        Some(text) => Ok(text),
        None => Err(url_error("deck is not UTF-8")),
    }
}


/// The authority of an `https://` link; empty for anything else.
pub open spec fn authority(url: Seq<char>) -> Seq<char> {
    if starts(url, "https://"@) {
        match split_once(url.skip(8), seq!['/']) {
            Some((a, _)) => a,
            None => Seq::empty(),
        }
    } else {
        Seq::empty()
    }
}

/// The path of a link: past `//` and the authority's `/`; empty when there
/// is none.
pub open spec fn link_path(url: Seq<char>) -> Seq<char> {
    match split_once(url, "//"@) {
        Some((_, rest)) => match split_once(rest, seq!['/']) {
            Some((_, p)) => p,
            None => Seq::empty(),
        },
        None => Seq::empty(),
    }
}

/// The game, name and deck parameters the query's `key=value` pairs set,
/// the last of each winning; or why a value does not read.
pub open spec fn query_params(pairs: Seq<Seq<char>>) -> Result<(Option<Seq<char>>, Option<Seq<char>>, Option<Seq<char>>), Seq<char>>
    decreases pairs.len(),
{
    if pairs.len() == 0 {
        Ok((None, None, None))
    } else {
        match query_params(pairs.drop_last()) {
            Err(e) => Err(e),
            Ok((game, name, deck)) => match split_once(pairs.last(), seq!['=']) {
                None => Ok((game, name, deck)),
                Some((key, value)) => match percent_text(value) {
                    Err(e) => Err(e),
                    Ok(v) => Ok(if key == "game"@ {
                        (Some(v), name, deck)
                    } else if key == "name"@ {
                        (game, Some(v), deck)
                    } else if key == "deck"@ {
                        (game, name, Some(v))
                    } else {
                        (game, name, deck)
                    }),
                },
            },
        }
    }
}

/// What `parse_url` reads from a link: the card lines of the text export
/// its deck parameter carries and the title its name parameter gives, or
/// why not.
pub open spec fn url_import(u: Seq<char>) -> Result<(Seq<CardLine<Riftbound>>, Option<Seq<char>>), Fault> {
    if encode_utf8(u).len() > MAX_INPUT_BYTES * 2 {
        Err(Fault::TooLarge)
    } else if authority(u) != HOST@ {
        Err(Fault::Url("only https://tcg-arena.fr is supported"@))
    } else if !starts(link_path(u), "import?"@) {
        Err(Fault::Url("the URL is not a deck import link"@))
    } else {
        match query_params(pieces(link_path(u).skip(7), '&')) {
            Err(e) => Err(Fault::Url(e)),
            Ok((game, title, deck)) => if !(game is Some && lower_seq(game->Some_0) == "riftbound"@) {
                Err(Fault::Url("the URL is for a different game"@))
            } else {
                match deck {
                    None => Err(Fault::Url("missing deck parameter"@)),
                    Some(encoded) => match base64_text(encoded) {
                        Err(f) => Err(f),
                        Ok(text) => match text_export(text) {
                            Err(f) => Err(f),
                            Ok(cards) => Ok((cards, match title {
                                Some(t) => if trim(t).len() > 0 { Some(t) } else { None },
                                None => None,
                            })),
                        },
                    },
                }
            },
        }
    }
}

/// What a text export reads as, the export given as its characters.
pub open spec fn text_export(text: Seq<char>) -> Result<Seq<CardLine<Riftbound>>, Fault> {
    if text.len() == 0 {
        Err(Fault::Empty)
    } else if encode_utf8(text).len() > MAX_INPUT_BYTES {
        Err(Fault::TooLarge)
    } else {
        match text_read::<Riftbound>(list_body(text)) {
            Err(e) => Err(Fault::Export(text_error_message(e))),
            Ok(cards) => match bound_fault(cards) {
                Some(f) => Err(f),
                None => Ok(cards),
            },
        }
    }
}

proof fn lemma_query_params_err_sticks(pairs: Seq<Seq<char>>, k: int)
    requires
        0 <= k <= pairs.len(),
        query_params(pairs.take(k)) is Err,
    ensures
        query_params(pairs) == query_params(pairs.take(k)),
    decreases pairs.len() - k,
{
    if k < pairs.len() {
        assert(pairs.take(k + 1).drop_last() =~= pairs.take(k));
        lemma_query_params_err_sticks(pairs, k + 1);
    } else {
        assert(pairs.take(k) =~= pairs);
    }
}

/// Reads a TCG Arena import link without fetching it: the text export is
/// the base64 deck parameter.
#[verifier::loop_isolation(false)]
pub fn parse_url(url: &str) -> (r: Result<Import, Error>)
    ensures
        match url_import(url@) {
            Ok((cards, title)) => r matches Ok(imp) && entries_read::<Riftbound>(imp.deck.entries@, cards)
                && match imp.title {
                Some(t) => title == Some(t@),
                None => title is None,
            },
            Err(f) => r matches Err(e) && e@ == f,
        },
{
    proof {
        reveal_strlit("https://");
        reveal_strlit("//");
        reveal_strlit("import?");
    }
    if url.as_bytes().len() > MAX_INPUT_BYTES * 2 {
        return Err(Error::TooLarge);
    }
    let u = chars_of(url);
    let auth: Vec<char> = if starts_with_str(u.as_slice(), "https://") {
        let rest = slice(u.as_slice(), 8, u.len());
        assert(rest@ =~= u@.skip(8));
        match split_once_char(rest.as_slice(), '/') {
            Some((a, _)) => a,
            None => Vec::new(),
        }
    } else {
        Vec::new()
    };
    assert(auth@ =~= authority(url@));
    let host_ok = is(auth.as_slice(), HOST);
    if !host_ok {
        return Err(url_error("only https://tcg-arena.fr is supported"));
    }
    let slashes = chars_of("//");
    let path: Vec<char> = match split_once_at(u.as_slice(), slashes.as_slice()) {
        Some((_, rest)) => match split_once_char(rest.as_slice(), '/') {
            Some((_, p)) => p,
            None => Vec::new(),
        },
        None => Vec::new(),
    };
    assert(path@ =~= link_path(url@));
    if !starts_with_str(path.as_slice(), "import?") {
        return Err(url_error("the URL is not a deck import link"));
    }
    let query = slice(path.as_slice(), 7, path.len());
    assert(query@ =~= path@.skip(7));
    let pairs = pieces_of(query.as_slice(), '&');
    let ghost ps = pieces(query@, '&');
    let mut game: Option<String> = None;
    let mut title: Option<String> = None;
    let mut deck: Option<String> = None;
    let mut i: usize = 0;
    assert(ps.take(0) =~= Seq::<Seq<char>>::empty());
    while i < pairs.len()
        invariant
            i <= pairs@.len(),
            views(pairs@) == ps,
            query_params(ps.take(i as int)) == Ok::<(Option<Seq<char>>, Option<Seq<char>>, Option<Seq<char>>), Seq<char>>((
                match game { Some(g) => Some(g@), None => None },
                match title { Some(g) => Some(g@), None => None },
                match deck { Some(g) => Some(g@), None => None },
            )),
        decreases pairs@.len() - i,
    {
        assert(ps.take(i as int + 1).drop_last() =~= ps.take(i as int));
        assert(ps.take(i as int + 1).last() == pairs@[i as int]@);
        match split_once_char(pairs[i].as_slice(), '=') {
            None => {},
            Some((key, value)) => {
                let value_text = string_of(value.as_slice());
                let decoded = match percent_decode(value_text.as_str()) {
                    Ok(v) => v,
                    Err(e) => {
                        proof {
                            lemma_query_params_err_sticks(ps, i as int + 1);
                            assert(ps.take(ps.len() as int) =~= ps);
                        }
                        return Err(e);
                    },
                };
                let k = key.as_slice();
                if is(k, "game") {
                    game = Some(decoded);
                } else if is(k, "name") {
                    title = Some(decoded);
                } else if is(k, "deck") {
                    deck = Some(decoded);
                }
            },
        }
        i = i + 1;
    }
    assert(ps.take(i as int) =~= ps);
    let riftbound = match &game {
        Some(g) => is(lower_all(chars_of(g.as_str()).as_slice()).as_slice(), "riftbound"),
        None => false,
    };
    if !riftbound {
        return Err(url_error("the URL is for a different game"));
    }
    let encoded = match deck {
        Some(d) => d,
        None => {
            return Err(url_error("missing deck parameter"));
        },
    };
    let text = match base64_decode(encoded.as_str()) {
        Ok(t) => t,
        Err(e) => {
            return Err(e);
        },
    };
    let imported = match parse_text(text.as_str()) {
        Ok(imported) => imported,
        Err(e) => {
            return Err(e);
        },
    };
    let kept = match title {
        Some(t) => if trim_of(chars_of(t.as_str()).as_slice()).len() > 0 {
            Some(t)
        } else {
            None
        },
        None => None,
    };
    Ok(Import { deck: imported.deck, title: kept })
}

/// A card line of a JSON export: the card id, the count and the zone.
pub type JsonLine = (Seq<char>, u32, Section);

/// A card count: a whole number from 1 to `MAX_CARD_COUNT`.
pub open spec fn count_read(j: Json) -> Result<u32, Seq<char>> {
    match j {
        Json::Number(Some(n)) => if 1 <= n && n <= MAX_CARD_COUNT {
            Ok(n as u32)
        } else {
            Err("card count must be between 1 and 4096"@)
        },
        _ => Err("card count is not an integer"@),
    }
}

/// A deck entry: an object with a card id that is not blank, and a count.
pub open spec fn entry_read(j: Json, section: Section) -> Result<JsonLine, Seq<char>> {
    match j {
        Json::Object(_) => match text_in(field(j, "id"@)) {
            None => Err("deck entry has no card id"@),
            Some(id) => if trim(id).len() == 0 {
                Err("deck entry has no card id"@)
            } else {
                match field(j, "count"@) {
                    None => Err("deck entry has no count"@),
                    Some(c) => match count_read(c) {
                        Err(e) => Err(e),
                        Ok(n) => Ok((id, n, section)),
                    },
                }
            },
        },
        _ => Err("deck entry is not an object"@),
    }
}

/// The entries of one category, in order, or the first that does not read.
pub open spec fn cards_read(cards: Seq<Json>, section: Section) -> Result<Seq<JsonLine>, Seq<char>>
    decreases cards.len(),
{
    if cards.len() == 0 {
        Ok(Seq::empty())
    } else {
        match cards_read(cards.drop_last(), section) {
            Err(e) => Err(e),
            Ok(lines) => match entry_read(cards.last(), section) {
                Err(e) => Err(e),
                Ok(line) => Ok(lines.push(line)),
            },
        }
    }
}

/// The category names of `categoriesOrder`: each a name that is not
/// blank, not repeated, and naming an array of the deck list.
pub open spec fn order_read(deck: Json, order: Seq<Json>) -> Result<Seq<Seq<char>>, Seq<char>>
    decreases order.len(),
{
    if order.len() == 0 {
        Ok(Seq::empty())
    } else {
        match order_read(deck, order.drop_last()) {
            Err(e) => Err(e),
            Ok(cats) => match order.last() {
                Json::Text(c) => if trim(c@).len() == 0 {
                    Err("categoriesOrder contains a non-name"@)
                } else if cats.contains(c@) {
                    Err("categoriesOrder repeats "@ + c@)
                } else if array_in(field(deck, c@)) is None {
                    Err("category "@ + c@ + " is missing or not an array"@)
                } else {
                    Ok(cats.push(c@))
                },
                _ => Err("categoriesOrder contains a non-name"@),
            },
        }
    }
}

/// The categories read in order, with a sideboard array the order leaves
/// out added last.
pub open spec fn with_sideboard(deck: Json, cats: Seq<Seq<char>>) -> Seq<Seq<char>> {
    if array_in(field(deck, "Sideboard"@)) is Some && !cats.contains("Sideboard"@) {
        cats.push("Sideboard"@)
    } else {
        cats
    }
}

/// The entries of the categories, category after category.
pub open spec fn category_lines(deck: Json, cats: Seq<Seq<char>>) -> Result<Seq<JsonLine>, Seq<char>>
    decreases cats.len(),
{
    if cats.len() == 0 {
        Ok(Seq::empty())
    } else {
        match category_lines(deck, cats.drop_last()) {
            Err(e) => Err(e),
            Ok(lines) => match array_in(field(deck, cats.last())) {
                None => Err("category "@ + cats.last() + " is missing"@),
                Some(cards) => match cards_read(cards, category_section(cats.last())) {
                    Err(e) => Err(e),
                    Ok(more) => Ok(lines + more),
                },
            },
        }
    }
}

/// The card lines of a JSON export, or why it is not one: a game it names
/// must be Riftbound, and it must hold a deck list with its order of
/// categories.
pub open spec fn export_read(root: Json) -> Result<Seq<JsonLine>, Seq<char>> {
    let game_ok = match text_in(field(root, "game"@)) {
        Some(g) => lower_seq(g) == "riftbound"@,
        None => true,
    };
    if !game_ok {
        Err("game must be Riftbound"@)
    } else {
        match field(root, "deckList"@) {
            Some(deck) => match deck {
                Json::Object(_) => match array_in(field(deck, "categoriesOrder"@)) {
                    None => Err("missing categoriesOrder"@),
                    Some(order) => match order_read(deck, order) {
                        Err(e) => Err(e),
                        Ok(cats) => category_lines(deck, with_sideboard(deck, cats)),
                    },
                },
                _ => Err("missing deckList"@),
            },
            None => Err("missing deckList"@),
        }
    }
}

/// The copies the card lines ask for in all.
pub open spec fn json_total(lines: Seq<JsonLine>) -> int
    decreases lines.len(),
{
    if lines.len() == 0 {
        0
    } else {
        json_total(lines.drop_last()) + lines.last().1
    }
}

/// What `import_of` reads from a JSON document: its card lines and title,
/// or why not.
pub open spec fn import_read(root: Json) -> Result<(Seq<JsonLine>, Option<Seq<char>>), Fault> {
    match export_read(root) {
        Err(m) => Err(Fault::Export(m)),
        Ok(lines) => if lines.len() > MAX_ENTRIES {
            Err(Fault::TooLarge)
        } else if json_total(lines) > MAX_TOTAL_CARDS {
            Err(Fault::TooLarge)
        } else if json_total(lines) == 0 {
            Err(Fault::Empty)
        } else {
            Ok((lines, text_in(field(root, "title"@))))
        },
    }
}

/// What `parse_json` reads from an export.
pub open spec fn json_import(input: Seq<char>) -> Result<(Seq<JsonLine>, Option<Seq<char>>), Fault> {
    match size_fault(input) {
        Some(f) => Err(f),
        None => match json_document(input) {
            Err(m) => Err(Fault::Json(m)),
            Ok(root) => import_read(root),
        },
    }
}

/// The entries list the card lines one for one, each by its card id.
pub open spec fn json_entries(entries: Seq<ParsedEntry>, lines: Seq<JsonLine>) -> bool {
    &&& entries.len() == lines.len()
    &&& forall|i: int| 0 <= i < entries.len() ==> {
        &&& (#[trigger] entries[i]).identifier@ == IdentifierView::Id(lines[i].0)
        &&& entries[i].count == lines[i].1
        &&& entries[i].section == Some(lines[i].2)
    }
}

/// The names the strings hold.
pub open spec fn names(v: Seq<String>) -> Seq<Seq<char>> {
    v.map_values(|s: String| s@)
}

proof fn lemma_cards_err_sticks(cards: Seq<Json>, section: Section, k: int)
    requires
        0 <= k <= cards.len(),
        cards_read(cards.take(k), section) is Err,
    ensures
        cards_read(cards, section) == cards_read(cards.take(k), section),
    decreases cards.len() - k,
{
    if k < cards.len() {
        assert(cards.take(k + 1).drop_last() =~= cards.take(k));
        lemma_cards_err_sticks(cards, section, k + 1);
    } else {
        assert(cards.take(k) =~= cards);
    }
}

proof fn lemma_order_err_sticks(deck: Json, order: Seq<Json>, k: int)
    requires
        0 <= k <= order.len(),
        order_read(deck, order.take(k)) is Err,
    ensures
        order_read(deck, order) == order_read(deck, order.take(k)),
    decreases order.len() - k,
{
    if k < order.len() {
        assert(order.take(k + 1).drop_last() =~= order.take(k));
        lemma_order_err_sticks(deck, order, k + 1);
    } else {
        assert(order.take(k) =~= order);
    }
}

proof fn lemma_lines_err_sticks(deck: Json, cats: Seq<Seq<char>>, k: int)
    requires
        0 <= k <= cats.len(),
        category_lines(deck, cats.take(k)) is Err,
    ensures
        category_lines(deck, cats) == category_lines(deck, cats.take(k)),
    decreases cats.len() - k,
{
    if k < cats.len() {
        assert(cats.take(k + 1).drop_last() =~= cats.take(k));
        lemma_lines_err_sticks(deck, cats, k + 1);
    } else {
        assert(cats.take(k) =~= cats);
    }
}

proof fn lemma_json_totals(entries: Seq<ParsedEntry>, lines: Seq<JsonLine>)
    requires
        json_entries(entries, lines),
    ensures
        entries_total(entries) == json_total(lines),
    decreases entries.len(),
{
    if entries.len() > 0 {
        let e = entries.drop_last();
        let l = lines.drop_last();
        assert forall|i: int| 0 <= i < e.len() implies {
            &&& (#[trigger] e[i]).identifier@ == IdentifierView::Id(l[i].0)
            &&& e[i].count == l[i].1
            &&& e[i].section == Some(l[i].2)
        } by {
            assert(e[i] == entries[i]);
            assert(l[i] == lines[i]);
        }
        lemma_json_totals(e, l);
        assert(entries.last() == entries[entries.len() - 1]);
        assert(lines.last() == lines[lines.len() - 1]);
    }
}

fn export_error(why: &str) -> (e: Error)
    ensures
        e@ == Fault::Export(why@),
{
    Error::InvalidExport(string_of(chars_of(why).as_slice()))
}

/// Reads a card count.
fn count_of(j: &Json) -> (r: Result<u32, Error>)
    ensures
        match count_read(*j) {
            Ok(n) => r matches Ok(m) && m == n,
            Err(m) => r matches Err(e) && e@ == Fault::Export(m),
        },
{
    match j {
        Json::Number(Some(n)) => if 1 <= *n && *n <= MAX_CARD_COUNT as u64 {
            Ok(*n as u32)
        } else {
            Err(export_error("card count must be between 1 and 4096"))
        },
        _ => Err(export_error("card count is not an integer")),
    }
}

/// Reads one deck entry of a category.
fn entry_of(j: &Json, section: Section) -> (r: Result<ParsedEntry, Error>)
    ensures
        match entry_read(*j, section) {
            Ok(line) => r matches Ok(e) && e.identifier@ == IdentifierView::Id(line.0)
                && e.count == line.1 && e.section == Some(line.2),
            Err(m) => r matches Err(e) && e@ == Fault::Export(m),
        },
{
    match j {
        Json::Object(_) => {},
        _ => {
            return Err(export_error("deck entry is not an object"));
        },
    }
    let id = match get(j, "id") {
        Some(Json::Text(id)) => id,
        _ => {
            return Err(export_error("deck entry has no card id"));
        },
    };
    if trim_of(chars_of(id.as_str()).as_slice()).len() == 0 {
        return Err(export_error("deck entry has no card id"));
    }
    let count = match get(j, "count") {
        Some(c) => match count_of(c) {
            Ok(n) => n,
            Err(e) => {
                return Err(e);
            },
        },
        None => {
            return Err(export_error("deck entry has no count"));
        },
    };
    Ok(ParsedEntry { identifier: Identifier::Id(id.clone()), count, section: Some(section) })
}

/// Whether `name` is one of the strings.
fn listed(v: &Vec<String>, name: &str) -> (r: bool)
    ensures
        r == names(v@).contains(name@),
{
    let mut i: usize = 0;
    while i < v.len()
        invariant
            i <= v@.len(),
            forall|j: int| 0 <= j < i ==> v@[j]@ != name@,
        decreases v@.len() - i,
    {
        if is(chars_of(v[i].as_str()).as_slice(), name) {
            assert(names(v@)[i as int] == name@);
            return true;
        }
        i = i + 1;
    }
    assert forall|j: int| 0 <= j < names(v@).len() implies names(v@)[j] != name@ by {
        assert(names(v@)[j] == v@[j]@);
    }
    false
}

/// Reads the deck of a JSON export already read into a document: the
/// categories in the order the export gives, the sideboard last when the
/// order leaves it out, and each entry by its card id.
#[verifier::loop_isolation(false)]
pub fn import_of(root: &Json) -> (r: Result<Import, Error>)
    ensures
        match import_read(*root) {
            Ok((lines, title)) => r matches Ok(imp) && json_entries(imp.deck.entries@, lines)
                && match imp.title {
                Some(t) => title == Some(t@),
                None => title is None,
            },
            Err(f) => r matches Err(e) && e@ == f,
        },
{
    let game_ok = match get(root, "game") {
        Some(Json::Text(g)) => is(lower_all(chars_of(g.as_str()).as_slice()).as_slice(), "riftbound"),
        _ => true,
    };
    if !game_ok {
        return Err(export_error("game must be Riftbound"));
    }
    let deck = match get(root, "deckList") {
        Some(d) => match d {
            Json::Object(_) => d,
            _ => {
                return Err(export_error("missing deckList"));
            },
        },
        None => {
            return Err(export_error("missing deckList"));
        },
    };
    let order = match get(deck, "categoriesOrder") {
        Some(Json::Array(items)) => items,
        _ => {
            return Err(export_error("missing categoriesOrder"));
        },
    };
    let mut categories: Vec<String> = Vec::new();
    let mut i: usize = 0;
    assert(order@.take(0) =~= Seq::<Json>::empty());
    assert(names(categories@) =~= Seq::<Seq<char>>::empty());
    while i < order.len()
        invariant
            i <= order@.len(),
            order_read(*deck, order@.take(i as int)) == Ok::<Seq<Seq<char>>, Seq<char>>(names(categories@)),
        decreases order@.len() - i,
    {
        assert(order@.take(i as int + 1).drop_last() =~= order@.take(i as int));
        assert(order@.take(i as int + 1).last() == order@[i as int]);
        let c = match &order[i] {
            Json::Text(c) => c,
            _ => {
                proof {
                    lemma_order_err_sticks(*deck, order@, i as int + 1);
                }
                return Err(export_error("categoriesOrder contains a non-name"));
            },
        };
        if trim_of(chars_of(c.as_str()).as_slice()).len() == 0 {
            proof {
                lemma_order_err_sticks(*deck, order@, i as int + 1);
            }
            return Err(export_error("categoriesOrder contains a non-name"));
        }
        if listed(&categories, c.as_str()) {
            proof {
                lemma_order_err_sticks(*deck, order@, i as int + 1);
            }
            let mut m = chars_of("categoriesOrder repeats ");
            extend(&mut m, chars_of(c.as_str()).as_slice());
            return Err(Error::InvalidExport(string_of(m.as_slice())));
        }
        let present = match get(deck, c.as_str()) {
            Some(Json::Array(_)) => true,
            _ => false,
        };
        if !present {
            proof {
                lemma_order_err_sticks(*deck, order@, i as int + 1);
            }
            let mut m = chars_of("category ");
            extend(&mut m, chars_of(c.as_str()).as_slice());
            extend(&mut m, chars_of(" is missing or not an array").as_slice());
            return Err(Error::InvalidExport(string_of(m.as_slice())));
        }
        let ghost before = categories@;
        categories.push(c.clone());
        assert(names(categories@) =~= names(before).push(c@));
        i = i + 1;
    }
    assert(order@.take(order@.len() as int) =~= order@);
    let ghost read = names(categories@);
    let side = match get(deck, "Sideboard") {
        Some(Json::Array(_)) => true,
        _ => false,
    };
    if side && !listed(&categories, "Sideboard") {
        let ghost before = categories@;
        categories.push(string_of(chars_of("Sideboard").as_slice()));
        assert(names(categories@) =~= names(before).push("Sideboard"@));
    }
    let ghost cats = names(categories@);
    assert(cats == with_sideboard(*deck, read));
    let mut entries: Vec<ParsedEntry> = Vec::new();
    let ghost mut lines: Seq<JsonLine> = Seq::empty();
    let mut k: usize = 0;
    assert(cats.take(0) =~= Seq::<Seq<char>>::empty());
    while k < categories.len()
        invariant
            k <= categories@.len(),
            cats == names(categories@),
            category_lines(*deck, cats.take(k as int)) == Ok::<Seq<JsonLine>, Seq<char>>(lines),
            json_entries(entries@, lines),
        decreases categories@.len() - k,
    {
        assert(cats.take(k as int + 1).drop_last() =~= cats.take(k as int));
        assert(cats.take(k as int + 1).last() == categories@[k as int]@);
        let c = &categories[k];
        let cards = match get(deck, c.as_str()) {
            Some(Json::Array(items)) => items,
            _ => {
                proof {
                    lemma_lines_err_sticks(*deck, cats, k as int + 1);
                }
                let mut m = chars_of("category ");
                extend(&mut m, chars_of(c.as_str()).as_slice());
                extend(&mut m, chars_of(" is missing").as_slice());
                return Err(Error::InvalidExport(string_of(m.as_slice())));
            },
        };
        let sec = section(c.as_str());
        let ghost base = lines;
        let mut m: usize = 0;
        assert(cards@.take(0) =~= Seq::<Json>::empty());
        assert(base + Seq::<JsonLine>::empty() =~= base);
        while m < cards.len()
            invariant
                m <= cards@.len(),
                cards_read(cards@.take(m as int), sec) matches Ok(added) && lines == base + added,
                json_entries(entries@, lines),
            decreases cards@.len() - m,
        {
            assert(cards@.take(m as int + 1).drop_last() =~= cards@.take(m as int));
            assert(cards@.take(m as int + 1).last() == cards@[m as int]);
            match entry_of(&cards[m], sec) {
                Ok(e) => {
                    let ghost line = entry_read(cards@[m as int], sec)->Ok_0;
                    let ghost old_entries = entries@;
                    let ghost added = cards_read(cards@.take(m as int), sec)->Ok_0;
                    entries.push(e);
                    proof {
                        lines = lines.push(line);
                        assert(base + added.push(line) =~= (base + added).push(line));
                        assert forall|j: int| 0 <= j < entries@.len() implies {
                            &&& (#[trigger] entries@[j]).identifier@ == IdentifierView::Id(lines[j].0)
                            &&& entries@[j].count == lines[j].1
                            &&& entries@[j].section == Some(lines[j].2)
                        } by {
                            if j < old_entries.len() {
                                assert(entries@[j] == old_entries[j]);
                            }
                        }
                    }
                },
                Err(e) => {
                    proof {
                        lemma_cards_err_sticks(cards@, sec, m as int + 1);
                        lemma_lines_err_sticks(*deck, cats, k as int + 1);
                    }
                    return Err(e);
                },
            }
            m = m + 1;
        }
        assert(cards@.take(cards@.len() as int) =~= cards@);
        k = k + 1;
    }
    assert(cats.take(cats.len() as int) =~= cats);
    proof {
        lemma_json_totals(entries@, lines);
    }
    let deck_list = ParsedDeck { entries };
    let bounded_deck = match bounded(deck_list) {
        Ok(d) => d,
        Err(e) => {
            return Err(e);
        },
    };
    let title = match get(root, "title") {
        Some(Json::Text(t)) => Some(t.clone()),
        _ => None,
    };
    Ok(Import { deck: bounded_deck, title })
}

/// Reads a TCG Arena JSON export.
pub fn parse_json(input: &str) -> (r: Result<Import, Error>)
    ensures
        match json_import(input@) {
            Ok((lines, title)) => r matches Ok(imp) && json_entries(imp.deck.entries@, lines)
                && match imp.title {
                Some(t) => title == Some(t@),
                None => title is None,
            },
            Err(f) => r matches Err(e) && e@ == f,
        },
{
    match size_check(input) {
        Ok(()) => {},
        Err(e) => {
            return Err(e);
        },
    }
    match read_json(input) {
        Ok(root) => import_of(&root),
        Err(m) => Err(Error::InvalidJson(m)),
    }
}

/// Whether an export is JSON: its first character, spaces aside, opens
/// an object.
pub open spec fn json_like(input: Seq<char>) -> bool {
    trim_start(input).len() > 0 && trim_start(input)[0] == '{'
}

/// Reads a TCG Arena export, JSON or text.
pub fn parse(input: &str) -> (r: Result<Import, Error>)
    ensures
        json_like(input@) ==> match json_import(input@) {
            Ok((lines, title)) => r matches Ok(imp) && json_entries(imp.deck.entries@, lines)
                && match imp.title {
                Some(t) => title == Some(t@),
                None => title is None,
            },
            Err(f) => r matches Err(e) && e@ == f,
        },
        !json_like(input@) ==> match text_import(input@) {
            Ok(cards) => r matches Ok(imp) && entries_read::<Riftbound>(imp.deck.entries@, cards) && imp.title is None,
            Err(f) => r matches Err(e) && e@ == f,
        },
{
    let cs = chars_of(input);
    let start = trim_start_of(cs.as_slice());
    if start.len() > 0 && start[0] == '{' {
        parse_json(input)
    } else {
        parse_text(input)
    }
}

} // verus!
