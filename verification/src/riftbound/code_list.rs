//! Code lists: whitespace-separated tokens `SET-NUMBER[-COUNT]`, and the
//! Tabletop Simulator form that repeats one token per copy.
use vstd::prelude::*;
use crate::riftbound::card_code::{base_print_of_id_spec, card_code_error_message, code_from_chars, code_of, code_text, CardCode};
use crate::riftbound::resolved::{DeckEntry, ResolvedCard, ResolvedDeck};
use crate::riftbound::text_list::{order_of, sorted_as};
use crate::riftbound::{Identifier, ParsedDeck, ParsedEntry};
use crate::text::{
    all_digits, all_digits_in, chars_of, decimal, extend, parse_u32, parse_u32_of, pieces,
    pieces_of, push_decimal, spaced, string_of, views, words, words_of, debug_str, str_debug, join_spaced,
};

verus! {

pub const NO_SIDEBOARD: &'static str = "the code list has no sideboard — copy the deck code instead";

/// Why a code list does not parse, naming the token at fault.
#[derive(Debug, Clone, PartialEq, Eq)]
pub enum CodeListError {
    Empty,
    BadToken(String),
    ZeroCount(String),
}

/// The message a reader sees for a code list error.
pub open spec fn code_list_message(e: CodeListError) -> Seq<char> {
    match e {
        CodeListError::Empty => "the code list is empty"@,
        CodeListError::BadToken(t) => str_debug(t@) + " is not a card code token like OGN-045-2"@,
        CodeListError::ZeroCount(t) => str_debug(t@) + " asks for zero copies"@,
    }
}

impl CodeListError {
    /// The message a reader sees.
    pub fn message(&self) -> (r: String)
        ensures
            r@ == code_list_message(*self),
    {
        let out = match self {
            CodeListError::Empty => chars_of("the code list is empty"),
            CodeListError::BadToken(t) => {
                let mut out = chars_of(debug_str(t.as_str()).as_str());
                extend(&mut out, chars_of(" is not a card code token like OGN-045-2").as_slice());
                out
            },
            CodeListError::ZeroCount(t) => {
                let mut out = chars_of(debug_str(t.as_str()).as_str());
                extend(&mut out, chars_of(" asks for zero copies").as_slice());
                out
            },
        };
        string_of(out.as_slice())
    }
}

/// How one token reads.
pub enum TokenRead {
    Read(CardCode, u32),
    Bad,
    Zero,
}

/// How a code list reads: its entries, or the first token at fault and
/// whether its fault is a zero count.
pub enum ListRead {
    Empty,
    Bad(Seq<char>),
    Zero(Seq<char>),
}

impl CodeListError {
    pub open spec fn is_read_fault(&self, f: ListRead) -> bool {
        match (self, f) {
            (CodeListError::Empty, ListRead::Empty) => true,
            (CodeListError::BadToken(t), ListRead::Bad(u)) => t@ == u,
            (CodeListError::ZeroCount(t), ListRead::Zero(u)) => t@ == u,
            _ => false,
        }
    }
}

/// `SET-NUMBER` as one text.
pub open spec fn joined(set: Seq<char>, number: Seq<char>) -> Seq<char> {
    set + seq!['-'] + number
}

/// A token: `SET-NUMBER` for one copy or `SET-NUMBER-COUNT`; a count of
/// zero is its own fault, checked before the code.
pub open spec fn token_read(t: Seq<char>) -> TokenRead {
    let parts = pieces(t, '-');
    if parts.len() < 2 || parts.len() > 3 {
        TokenRead::Bad
    } else {
        let count = if parts.len() == 2 {
            Some(1u32)
        } else {
            parse_u32(parts[2])
        };
        match count {
            None => TokenRead::Bad,
            Some(c) => if c == 0 {
                TokenRead::Zero
            } else {
                match code_of(joined(parts[0], parts[1])) {
                    Some(code) => TokenRead::Read(code, c),
                    None => TokenRead::Bad,
                }
            },
        }
    }
}

/// A list of tokens read in order: the entries, or the first fault.
pub open spec fn code_list_read(tokens: Seq<Seq<char>>) -> Result<Seq<ParsedEntry>, ListRead> {
    if tokens.len() == 0 {
        Err(ListRead::Empty)
    } else {
        tokens_read(tokens)
    }
}

pub open spec fn tokens_read(tokens: Seq<Seq<char>>) -> Result<Seq<ParsedEntry>, ListRead>
    decreases tokens.len(),
{
    if tokens.len() == 0 {
        Ok(Seq::empty())
    } else {
        match tokens_read(tokens.drop_last()) {
            Err(e) => Err(e),
            Ok(entries) => match token_read(tokens.last()) {
                TokenRead::Read(code, count) => Ok(entries.push(crate::deck::ParsedEntry {
                    identifier: Identifier::Code(code),
                    count,
                    section: None,
                })),
                TokenRead::Bad => Err(ListRead::Bad(tokens.last())),
                TokenRead::Zero => Err(ListRead::Zero(tokens.last())),
            },
        }
    }
}

fn joined_chars(set: &Vec<char>, number: &Vec<char>) -> (r: Vec<char>)
    ensures
        r@ == joined(set@, number@),
{
    let mut out = crate::text::copy(set.as_slice());
    out.push('-');
    extend(&mut out, number.as_slice());
    assert(out@ =~= joined(set@, number@));
    out
}

fn read_token(t: &[char]) -> (r: (Option<(CardCode, u32)>, bool))
    ensures
        match token_read(t@) {
            TokenRead::Read(code, count) => r == (Some((code, count)), false),
            TokenRead::Bad => r == (None::<(CardCode, u32)>, false),
            TokenRead::Zero => r == (None::<(CardCode, u32)>, true),
        },
{
    let parts = pieces_of(t, '-');
    let ghost ps = pieces(t@, '-');
    assert(views(parts@) == ps);
    if parts.len() < 2 || parts.len() > 3 {
        return (None, false);
    }
    assert(parts@[0]@ == ps[0] && parts@[1]@ == ps[1]);
    let count = if parts.len() == 2 {
        Some(1u32)
    } else {
        assert(parts@[2]@ == ps[2]);
        parse_u32_of(parts[2].as_slice())
    };
    match count {
        None => (None, false),
        Some(c) => {
            if c == 0 {
                return (None, true);
            }
            let text = joined_chars(&parts[0], &parts[1]);
            match code_from_chars(text.as_slice()) {
                Some(code) => (Some((code, c)), false),
                None => (None, false),
            }
        },
    }
}

/// Reads a code list.
#[verifier::loop_isolation(false)]
pub fn parse_code_list(input: &str) -> (r: Result<ParsedDeck, CodeListError>)
    ensures
        match code_list_read(words(input@)) {
            Ok(entries) => r matches Ok(d) && d.entries@ == entries,
            Err(f) => r matches Err(e) && e.is_read_fault(f),
        },
{
    let cs = chars_of(input);
    let tokens = words_of(cs.as_slice());
    let ghost ts = words(input@);
    let mut deck: ParsedDeck = crate::deck::ParsedDeck::new();
    assert(ts.take(0) =~= Seq::<Seq<char>>::empty());
    assert(deck.entries@ =~= Seq::<ParsedEntry>::empty());
    let mut i: usize = 0;
    while i < tokens.len()
        invariant
            i <= tokens@.len(),
            views(tokens@) == ts,
            tokens_read(ts.take(i as int)) == Ok::<Seq<ParsedEntry>, ListRead>(deck.entries@),
        decreases tokens@.len() - i,
    {
        let token = &tokens[i];
        assert(token@ == ts[i as int]);
        assert(ts.take(i as int + 1).drop_last() =~= ts.take(i as int));
        let (read, zero) = read_token(token.as_slice());
        assert(ts.take(i as int + 1).last() == ts[i as int]);
        match read {
            Some((code, count)) => {
                deck.entries.push(crate::deck::ParsedEntry { identifier: Identifier::Code(code), count, section: None });
            },
            None => {
                proof {
                    lemma_read_fault_sticks(ts, i as int);
                }
                let text = string_of(token.as_slice());
                assert(text@ == ts[i as int]);
                assert(code_list_read(ts) == tokens_read(ts));
                if zero {
                    return Err(CodeListError::ZeroCount(text));
                }
                return Err(CodeListError::BadToken(text));
            },
        }
        i = i + 1;
    }
    assert(ts.take(i as int) =~= ts);
    if deck.entries.len() == 0 {
        return Err(CodeListError::Empty);
    }
    Ok(deck)
}

/// A fault at token `i`, after clean tokens, is the fault of the whole list.
proof fn lemma_read_fault_sticks(ts: Seq<Seq<char>>, i: int)
    requires
        0 <= i < ts.len(),
        tokens_read(ts.take(i)) is Ok,
        !(token_read(ts[i]) is Read),
    ensures
        tokens_read(ts) == tokens_read(ts.take(i + 1)),
        tokens_read(ts.take(i + 1)) is Err,
    decreases ts.len() - i,
{
    assert(ts.take(i + 1).drop_last() =~= ts.take(i));
    if i + 1 < ts.len() {
        lemma_read_fault_extends(ts, i + 1);
    } else {
        assert(ts.take(i + 1) =~= ts);
    }
}

proof fn lemma_read_fault_extends(ts: Seq<Seq<char>>, k: int)
    requires
        0 < k <= ts.len(),
        tokens_read(ts.take(k)) is Err,
    ensures
        tokens_read(ts) == tokens_read(ts.take(k)),
    decreases ts.len() - k,
{
    if k < ts.len() {
        assert(ts.take(k + 1).drop_last() =~= ts.take(k));
        lemma_read_fault_extends(ts, k + 1);
    } else {
        assert(ts.take(k) =~= ts);
    }
}

/// A Tabletop Simulator token: `SET-NUMBER-DIGITS`, the digits naming an
/// art variant, not a count.
pub open spec fn tts_read(t: Seq<char>) -> Option<CardCode> {
    let parts = pieces(t, '-');
    if parts.len() == 3 && parts[2].len() > 0 && all_digits(parts[2]) {
        code_of(joined(parts[0], parts[1]))
    } else {
        None
    }
}

fn tts_token(t: &[char]) -> (r: Option<CardCode>)
    ensures
        r == tts_read(t@),
{
    let parts = pieces_of(t, '-');
    let ghost ps = pieces(t@, '-');
    assert(views(parts@) == ps);
    if parts.len() != 3 || parts[2].len() == 0 || !all_digits_in(parts[2].as_slice()) {
        proof {
            if parts@.len() == 3 {
                assert(parts@[2]@ == ps[2]);
            }
        }
        return None;
    }
    assert(parts@[0]@ == ps[0] && parts@[1]@ == ps[1] && parts@[2]@ == ps[2]);
    let text = joined_chars(&parts[0], &parts[1]);
    code_from_chars(text.as_slice())
}

proof fn lemma_count_index(counts: Seq<(CardCode, nat)>, code: CardCode, i: int)
    ensures
        count_index(counts, code, i) matches Some(k) ==> i <= k < counts.len() && counts[k].0 == code,
    decreases counts.len() - i,
{
    if 0 <= i < counts.len() && counts[i].0 != code {
        lemma_count_index(counts, code, i + 1);
    }
}

fn position_of_code(counts: &Vec<(CardCode, u32)>, code: CardCode, before: Ghost<Seq<(CardCode, nat)>>) -> (r: Option<usize>)
    requires
        counts@.len() == before@.len(),
        forall|x: int| 0 <= x < counts@.len() ==> (#[trigger] counts@[x]).0 == before@[x].0,
    ensures
        match r {
            Some(k) => count_index(before@, code, 0) == Some(k as int) && k < counts@.len(),
            None => count_index(before@, code, 0) is None,
        },
{
    let mut k: usize = 0;
    while k < counts.len()
        invariant
            k <= counts@.len(),
            counts@.len() == before@.len(),
            forall|x: int| 0 <= x < counts@.len() ==> (#[trigger] counts@[x]).0 == before@[x].0,
            count_index(before@, code, 0) == count_index(before@, code, k as int),
        decreases counts@.len() - k,
    {
        if counts[k].0 == code {
            return Some(k);
        }
        k = k + 1;
    }
    None
}

/// Some token appears twice.
pub open spec fn has_repeat(ts: Seq<Seq<char>>) -> bool {
    exists|i: int, j: int| 0 <= i < j < ts.len() && ts[i] == ts[j]
}

/// A Tabletop Simulator list: two or more tokens, all in its form, one
/// repeated (a plain code list never repeats a token).
pub open spec fn tts_list(input: Seq<char>) -> bool {
    let ts = words(input);
    ts.len() >= 2 && (forall|i: int| 0 <= i < ts.len() ==> (#[trigger] tts_read(ts[i])) is Some) && has_repeat(ts)
}

/// Whether the input reads as a Tabletop Simulator list.
#[verifier::loop_isolation(false)]
pub fn looks_like_tts_list(input: &str) -> (r: bool)
    ensures
        r == tts_list(input@),
{
    let cs = chars_of(input);
    let tokens = words_of(cs.as_slice());
    let ghost ts = words(input@);
    assert(ts.len() == tokens@.len());
    if tokens.len() < 2 {
        return false;
    }
    let mut i: usize = 0;
    while i < tokens.len()
        invariant
            i <= tokens@.len(),
            views(tokens@) == ts,
            forall|j: int| 0 <= j < i ==> (#[trigger] tts_read(ts[j])) is Some,
        decreases tokens@.len() - i,
    {
        assert(tokens@[i as int]@ == ts[i as int]);
        if tts_token(tokens[i].as_slice()).is_none() {
            assert(tts_read(ts[i as int]) is None);
            return false;
        }
        i = i + 1;
    }
    let mut a: usize = 0;
    while a < tokens.len()
        invariant
            a <= tokens@.len(),
            views(tokens@) == ts,
            ts.len() == tokens@.len(),
            ts.len() >= 2,
            forall|j: int| 0 <= j < ts.len() ==> (#[trigger] tts_read(ts[j])) is Some,
            forall|x: int, y: int| 0 <= x < a && x < y < ts.len() ==> ts[x] != ts[y],
        decreases tokens@.len() - a,
    {
        let mut b: usize = a + 1;
        while b < tokens.len()
            invariant
                a < tokens@.len(),
                a + 1 <= b <= tokens@.len(),
                views(tokens@) == ts,
                ts.len() == tokens@.len(),
                ts.len() >= 2,
                forall|j: int| 0 <= j < ts.len() ==> (#[trigger] tts_read(ts[j])) is Some,
                forall|x: int, y: int| 0 <= x < a && x < y < ts.len() ==> ts[x] != ts[y],
                forall|y: int| a < y < b ==> ts[a as int] != ts[y],
            decreases tokens@.len() - b,
        {
            assert(tokens@[a as int]@ == ts[a as int] && tokens@[b as int]@ == ts[b as int]);
            if crate::text::same(tokens[a].as_slice(), tokens[b].as_slice()) {
                assert(ts[a as int] == ts[b as int]);
                return true;
            }
            b = b + 1;
        }
        a = a + 1;
    }
    assert(!has_repeat(ts));
    false
}

/// The copies of each code in first-appearance order.
pub open spec fn tts_counts(ts: Seq<Seq<char>>) -> Seq<(CardCode, nat)>
    decreases ts.len(),
{
    if ts.len() == 0 {
        Seq::empty()
    } else {
        let before = tts_counts(ts.drop_last());
        match tts_read(ts.last()) {
            None => before,
            Some(code) => match count_index(before, code, 0) {
                Some(k) => before.update(k, (code, before[k].1 + 1)),
                None => before.push((code, 1nat)),
            },
        }
    }
}

pub open spec fn count_index(counts: Seq<(CardCode, nat)>, code: CardCode, i: int) -> Option<int>
    decreases counts.len() - i,
{
    if i < 0 || i >= counts.len() {
        None
    } else if counts[i].0 == code {
        Some(i)
    } else {
        count_index(counts, code, i + 1)
    }
}

/// A code list token: the code, with `-COUNT` when more than one.
pub open spec fn count_token(code: CardCode, count: nat) -> Seq<char> {
    if count == 1 {
        code_text(code)
    } else {
        code_text(code) + seq!['-'] + decimal(count)
    }
}

pub open spec fn tts_text(input: Seq<char>) -> Seq<char> {
    spaced(tts_counts(words(input)).map_values(|p: (CardCode, nat)| count_token(p.0, p.1)))
}

/// Rewrites a Tabletop Simulator list as a code list: each code once, with
/// its number of copies, in the order codes first appear.
#[verifier::loop_isolation(false)]
pub fn from_tts(input: &str) -> (r: String)
    requires
        words(input@).len() <= u32::MAX,
    ensures
        r@ == tts_text(input@),
{
    let cs = chars_of(input);
    let tokens = words_of(cs.as_slice());
    let ghost ts = words(input@);
    let mut counts: Vec<(CardCode, u32)> = Vec::new();
    let mut i: usize = 0;
    while i < tokens.len()
        invariant
            i <= tokens@.len(),
            views(tokens@) == ts,
            ts.len() <= u32::MAX,
            counts@.len() == tts_counts(ts.take(i as int)).len(),
            forall|k: int| 0 <= k < counts@.len() ==> (#[trigger] counts@[k]).0 == tts_counts(ts.take(i as int))[k].0
                && counts@[k].1 as nat == tts_counts(ts.take(i as int))[k].1 && counts@[k].1 <= i,
        decreases tokens@.len() - i,
    {
        assert(tokens@[i as int]@ == ts[i as int]);
        assert(ts.take(i as int + 1).drop_last() =~= ts.take(i as int));
        let ghost before = tts_counts(ts.take(i as int));
        match tts_token(tokens[i].as_slice()) {
            None => {
                assert(tts_counts(ts.take(i as int + 1)) == before);
            },
            Some(code) => {
                let ghost old_counts = counts@;
                match position_of_code(&counts, code, Ghost(before)) {
                    Some(k) => {
                        proof {
                            lemma_count_index(before, code, 0);
                        }
                        let (held, n) = counts[k];
                        counts.set(k, (held, n + 1));
                        let ghost after = before.update(k as int, (code, before[k as int].1 + 1));
                        assert forall|x: int| 0 <= x < counts@.len() implies (#[trigger] counts@[x]).0 == after[x].0
                            && counts@[x].1 as nat == after[x].1 && counts@[x].1 <= i + 1 by {
                            if x != k {
                                assert(counts@[x] == old_counts[x]);
                            }
                        }
                    },
                    None => {
                        counts.push((code, 1));
                        let ghost after = before.push((code, 1nat));
                        assert forall|x: int| 0 <= x < counts@.len() implies (#[trigger] counts@[x]).0 == after[x].0
                            && counts@[x].1 as nat == after[x].1 && counts@[x].1 <= i + 1 by {
                            if x < old_counts.len() {
                                assert(counts@[x] == old_counts[x]);
                            }
                        }
                    },
                }
                assert(tts_counts(ts.take(i as int + 1)) == (match count_index(before, code, 0) {
                    Some(k) => before.update(k, (code, before[k].1 + 1)),
                    None => before.push((code, 1nat)),
                }));
            },
        }
        i = i + 1;
    }
    assert(ts.take(i as int) =~= ts);
    let ghost rendered = tts_counts(ts).map_values(|p: (CardCode, nat)| count_token(p.0, p.1));
    let mut out: Vec<char> = Vec::new();
    let mut k: usize = 0;
    while k < counts.len()
        invariant
            k <= counts@.len(),
            counts@.len() == tts_counts(ts).len(),
            rendered.len() == counts@.len(),
            forall|x: int| 0 <= x < counts@.len() ==> (#[trigger] rendered[x]) == count_token(counts@[x].0, counts@[x].1 as nat),
            out@ == spaced(rendered.take(k as int)),
        decreases counts@.len() - k,
    {
        let (code, count) = counts[k];
        let ghost before = out@;
        if k > 0 {
            out.push(' ');
        }
        extend(&mut out, code.text_chars().as_slice());
        if count != 1 {
            out.push('-');
            push_decimal(&mut out, count);
        }
        assert(rendered.take(k as int + 1).drop_last() =~= rendered.take(k as int));
        assert(rendered[k as int] == count_token(code, count as nat));
        k = k + 1;
        assert(out@ =~= spaced(rendered.take(k as int)));
    }
    assert(rendered.take(k as int) =~= rendered);
    string_of(out.as_slice())
}

/// Whether the input is a code list: at least one token, and every token
/// reads.
pub open spec fn code_list_like(input: Seq<char>) -> bool {
    let ts = words(input);
    ts.len() > 0 && forall|i: int| 0 <= i < ts.len() ==> (#[trigger] token_read(ts[i])) is Read
}

#[verifier::loop_isolation(false)]
pub fn looks_like_code_list(input: &str) -> (r: bool)
    ensures
        r == code_list_like(input@),
{
    let cs = chars_of(input);
    let tokens = words_of(cs.as_slice());
    let ghost ts = words(input@);
    assert(ts.len() == tokens@.len());
    if tokens.len() == 0 {
        return false;
    }
    let mut i: usize = 0;
    while i < tokens.len()
        invariant
            i <= tokens@.len(),
            views(tokens@) == ts,
            forall|j: int| 0 <= j < i ==> (#[trigger] token_read(ts[j])) is Read,
        decreases tokens@.len() - i,
    {
        assert(tokens@[i as int]@ == ts[i as int]);
        let (read, _) = read_token(tokens[i].as_slice());
        if read.is_none() {
            assert(!(token_read(ts[i as int]) is Read));
            return false;
        }
        i = i + 1;
    }
    true
}

/// The token of `count` copies of a card: its base print's code, and the
/// count after a hyphen unless it is one; or why the card has no code.
pub open spec fn token_spec(card: ResolvedCard, count: u32) -> Result<Seq<char>, Seq<char>> {
    match base_print_of_id_spec(card.riftbound_id@) {
        Err(input) => Err(card_code_error_message(input)),
        Ok(c) => Ok(code_text(c) + if count == 1 {
            Seq::empty()
        } else {
            seq!['-'] + decimal(count as nat)
        }),
    }
}

/// The tokens of cards with their copies, in order, or why the first card
/// without a code has none.
pub open spec fn tokens_spec(cards: Seq<(ResolvedCard, u32)>) -> Result<Seq<Seq<char>>, Seq<char>>
    decreases cards.len(),
{
    if cards.len() == 0 {
        Ok(Seq::empty())
    } else {
        match tokens_spec(cards.drop_last()) {
            Err(m) => Err(m),
            Ok(ts) => match token_spec(cards.last().0, cards.last().1) {
                Err(m) => Err(m),
                Ok(t) => Ok(ts.push(t)),
            },
        }
    }
}

/// The entries at positions `p`, in that order, as cards with copies.
pub open spec fn picked_cards(entries: Seq<DeckEntry>, p: Seq<int>) -> Seq<(ResolvedCard, u32)> {
    p.map_values(|i: int| (entries[i].card, entries[i].count))
}

/// A seated card as one copy, if one is seated.
pub open spec fn seat_card(card: Option<ResolvedCard>) -> Seq<(ResolvedCard, u32)> {
    match card {
        Some(c) => seq![(c, 1u32)],
        None => Seq::empty(),
    }
}

/// The cards a code list carries, given the sort order of each zone: the
/// legend, the champion, then the main deck, runes and battlefields.
pub open spec fn listed_cards(deck: ResolvedDeck, main: Seq<int>, runes: Seq<int>, battlefields: Seq<int>) -> Seq<(ResolvedCard, u32)> {
    seat_card(deck.legend) + seat_card(deck.chosen_champion) + picked_cards(deck.main_deck@, main)
        + picked_cards(deck.runes@, runes) + picked_cards(deck.battlefields@, battlefields)
}

proof fn lemma_tokens_err_sticks(a: Seq<(ResolvedCard, u32)>, b: Seq<(ResolvedCard, u32)>)
    requires
        tokens_spec(a) is Err,
    ensures
        tokens_spec(a + b) == tokens_spec(a),
    decreases b.len(),
{
    if b.len() == 0 {
        assert(a + b =~= a);
    } else {
        lemma_tokens_err_sticks(a, b.drop_last());
        assert((a + b).drop_last() =~= a + b.drop_last());
    }
}

fn token(card: &ResolvedCard, count: u32) -> (r: Result<Vec<char>, String>)
    ensures
        match token_spec(*card, count) {
            Ok(t) => r matches Ok(v) && v@ == t,
            Err(m) => r matches Err(e) && e@ == m,
        },
{
    let code = match CardCode::base_print_of_id(card.riftbound_id.as_str()) {
        Ok(c) => c,
        Err(e) => {
            return Err(e.message());
        },
    };
    let mut out = code.text_chars();
    if count != 1 {
        out.push('-');
        push_decimal(&mut out, count);
    }
    Ok(out)
}

fn push_token(words: &mut Vec<Vec<char>>, card: &ResolvedCard, count: u32, cards: Ghost<Seq<(ResolvedCard, u32)>>) -> (r: Result<(), String>)
    requires
        tokens_spec(cards@) == Ok::<Seq<Seq<char>>, Seq<char>>(views(old(words)@)),
    ensures
        match tokens_spec(cards@.push((*card, count))) {
            Ok(ts) => r is Ok && views(final(words)@) == ts,
            Err(m) => r matches Err(e) && e@ == m,
        },
{
    let ghost before = words@;
    assert(cards@.push((*card, count)).drop_last() =~= cards@);
    match token(card, count) {
        Ok(t) => {
            words.push(t);
            assert(views(words@) =~= views(before).push(words@[words@.len() - 1]@));
            Ok(())
        },
        Err(e) => Err(e),
    }
}

fn push_zone_tokens(
    words: &mut Vec<Vec<char>>,
    zone: &Vec<DeckEntry>,
    order: &Vec<usize>,
    cards: Ghost<Seq<(ResolvedCard, u32)>>,
) -> (r: Result<(), String>)
    requires
        sorted_as(zone@, order@.map_values(|i: usize| i as int)),
        tokens_spec(cards@) == Ok::<Seq<Seq<char>>, Seq<char>>(views(old(words)@)),
    ensures
        match tokens_spec(cards@ + picked_cards(zone@, order@.map_values(|i: usize| i as int))) {
            Ok(ts) => r is Ok && views(final(words)@) == ts,
            Err(m) => r matches Err(e) && e@ == m,
        },
{
    let ghost p = order@.map_values(|i: usize| i as int);
    let mut k: usize = 0;
    assert(picked_cards(zone@, p.take(0)) =~= Seq::<(ResolvedCard, u32)>::empty());
    assert(cards@ + picked_cards(zone@, p.take(0)) =~= cards@);
    while k < order.len()
        invariant
            k <= order@.len(),
            p == order@.map_values(|i: usize| i as int),
            sorted_as(zone@, p),
            tokens_spec(cards@ + picked_cards(zone@, p.take(k as int))) == Ok::<Seq<Seq<char>>, Seq<char>>(views(words@)),
        decreases order@.len() - k,
    {
        let ghost sofar = cards@ + picked_cards(zone@, p.take(k as int));
        let ghost next = cards@ + picked_cards(zone@, p.take(k as int + 1));
        assert(p[k as int] == order@[k as int] as int);
        assert(next =~= sofar.push((zone@[p[k as int]].card, zone@[p[k as int]].count)));
        let entry = &zone[order[k]];
        match push_token(words, &entry.card, entry.count, Ghost(sofar)) {
            Ok(()) => {},
            Err(e) => {
                proof {
                    lemma_tokens_err_sticks(next, picked_cards(zone@, p).skip(k as int + 1));
                    assert(next + picked_cards(zone@, p).skip(k as int + 1) =~= cards@ + picked_cards(zone@, p));
                }
                return Err(e);
            },
        }
        k = k + 1;
    }
    assert(p.take(order@.len() as int) =~= p);
    Ok(())
}

/// Writes a deck as a code list: the legend, the champion, then the main
/// deck, runes and battlefields, each zone in sort order, one token per
/// entry, joined by spaces. A deck with a sideboard has no code list.
pub fn render(deck: &ResolvedDeck) -> (r: Result<String, String>)
    ensures
        deck.sideboard@.len() > 0 ==> (r matches Err(e) && e@ == NO_SIDEBOARD@),
        deck.sideboard@.len() == 0 ==> exists|pm: Seq<int>, pr: Seq<int>, pb: Seq<int>| {
            &&& sorted_as(deck.main_deck@, pm)
            &&& sorted_as(deck.runes@, pr)
            &&& sorted_as(deck.battlefields@, pb)
            &&& match #[trigger] tokens_spec(listed_cards(*deck, pm, pr, pb)) {
                Ok(ts) => r matches Ok(s) && s@ == spaced(ts),
                Err(m) => r matches Err(e) && e@ == m,
            }
        },
{
    if deck.sideboard.len() > 0 {
        return Err(string_of(chars_of(NO_SIDEBOARD).as_slice()));
    }
    let om = order_of(deck.main_deck.as_slice());
    let orr = order_of(deck.runes.as_slice());
    let ob = order_of(deck.battlefields.as_slice());
    let ghost pm = om@.map_values(|i: usize| i as int);
    let ghost pr = orr@.map_values(|i: usize| i as int);
    let ghost pb = ob@.map_values(|i: usize| i as int);
    let ghost all = listed_cards(*deck, pm, pr, pb);
    let ghost s0 = seat_card(deck.legend);
    let ghost s1 = s0 + seat_card(deck.chosen_champion);
    let ghost s2 = s1 + picked_cards(deck.main_deck@, pm);
    let ghost s3 = s2 + picked_cards(deck.runes@, pr);
    assert(all =~= s3 + picked_cards(deck.battlefields@, pb));
    let mut words: Vec<Vec<char>> = Vec::new();
    let ghost none = Seq::<(ResolvedCard, u32)>::empty();
    assert(views(words@) =~= Seq::<Seq<char>>::empty());
    match &deck.legend {
        Some(legend) => {
            assert(none.push((*legend, 1u32)) =~= s0);
            match push_token(&mut words, legend, 1, Ghost(none)) {
                Ok(()) => {},
                Err(e) => {
                    proof {
                        lemma_tokens_err_sticks(s0, all.skip(s0.len() as int));
                        assert(s0 + all.skip(s0.len() as int) =~= all);
                    }
                    return Err(e);
                },
            }
        },
        None => {
            assert(s0 =~= none);
        },
    }
    match &deck.chosen_champion {
        Some(champion) => {
            assert(s0.push((*champion, 1u32)) =~= s1);
            match push_token(&mut words, champion, 1, Ghost(s0)) {
                Ok(()) => {},
                Err(e) => {
                    proof {
                        lemma_tokens_err_sticks(s1, all.skip(s1.len() as int));
                        assert(s1 + all.skip(s1.len() as int) =~= all);
                    }
                    return Err(e);
                },
            }
        },
        None => {
            assert(s1 =~= s0);
        },
    }
    match push_zone_tokens(&mut words, &deck.main_deck, &om, Ghost(s1)) {
        Ok(()) => {},
        Err(e) => {
            proof {
                lemma_tokens_err_sticks(s2, all.skip(s2.len() as int));
                assert(s2 + all.skip(s2.len() as int) =~= all);
            }
            return Err(e);
        },
    }
    match push_zone_tokens(&mut words, &deck.runes, &orr, Ghost(s2)) {
        Ok(()) => {},
        Err(e) => {
            proof {
                lemma_tokens_err_sticks(s3, all.skip(s3.len() as int));
                assert(s3 + all.skip(s3.len() as int) =~= all);
            }
            return Err(e);
        },
    }
    match push_zone_tokens(&mut words, &deck.battlefields, &ob, Ghost(s3)) {
        Ok(()) => {},
        Err(e) => {
            return Err(e);
        },
    }
    Ok(string_of(join_spaced(&words).as_slice()))
}

} // verus!
