//! The Piltover Archive deck code: a base32 text over a byte format of
//! count-grouped card numbers, versions 1 to 5.
use vstd::prelude::*;
use crate::riftbound::card_code::{
    base_print_of_id_spec, card_code_error_message, code_text, set_from_wire, variant_from_wire, spec_wire,
    variant_wire, CardCode, CardNumber, SetCode, Variant,
};
use crate::text::{
    all_ws, char_debug, chars_of, debug_char, decimal, extend, lemma_trim_lower, lemma_trim_padded, lower, lower_seq, push_decimal,
    string_of, trim, trim_of,
};
use crate::riftbound::resolved::{zone_view, CardView, DeckEntry, DeckView, ResolvedDeck, Zone};

verus! {

pub const FORMAT: u8 = 1u8;
pub const MAX_VERSION: u8 = 5u8;
pub const MAIN_COUNT_CEILING: u32 = 12u32;
pub const SIDE_COUNT_CEILING: u32 = 3u32;
/// The most groups, cards in a group, or distinct counts a code may announce.
pub const SECTION_LIMIT: u32 = 10000u32;

#[derive(Debug, Clone, Copy, PartialEq, Eq, PartialOrd, Ord, Structural)]
pub struct CodeEntry {
    pub code: CardCode,
    pub count: u32,
}

#[derive(Debug, Clone, PartialEq, Eq, Default)]
pub struct DecodedDeck {
    pub main: Vec<CodeEntry>,
    pub sideboard: Vec<CodeEntry>,
    pub champion: Option<CardCode>,
}

#[derive(Debug, Clone, PartialEq, Eq)]
pub enum DeckCodeError {
    BadCharacter(char),
    Truncated,
    BadFormat(u8),
    BadVersion(u8),
    BadSet(u8),
    BadVariant(u8),
    BadPrefixFlag(u8),
    BadDeckFlag(u8),
    BadCount(String, u32),
    NeedsNewerVersion(u8, String),
    Oversized,
}

/// The message a reader sees for a deck code error.
pub open spec fn code_error_message(e: DeckCodeError) -> Seq<char> {
    match e {
        DeckCodeError::BadCharacter(c) => "deck code contains "@ + char_debug(c) + ", not base32"@,
        DeckCodeError::Truncated => "deck code ends before the deck does"@,
        DeckCodeError::BadFormat(v) => "unknown deck code format "@ + decimal(v as nat),
        DeckCodeError::BadVersion(v) => "deck code version "@ + decimal(v as nat) + " is newer than v"@
            + decimal(MAX_VERSION as nat),
        DeckCodeError::BadSet(v) => "unknown set id "@ + decimal(v as nat) + " in deck code"@,
        DeckCodeError::BadVariant(v) => "unknown variant id "@ + decimal(v as nat) + " in deck code"@,
        DeckCodeError::BadPrefixFlag(v) => "unknown card number prefix flag "@ + decimal(v as nat),
        DeckCodeError::BadDeckFlag(v) => "unknown deck level prefix flag "@ + decimal(v as nat),
        DeckCodeError::BadCount(code, count) => code@ + " has count "@ + decimal(count as nat)
            + ", expected at least 1"@,
        DeckCodeError::NeedsNewerVersion(v, why) => "deck cannot encode as v"@ + decimal(v as nat) + ": "@
            + why@,
        DeckCodeError::Oversized => "deck code describes an implausibly large deck"@,
    }
}

impl DeckCodeError {
    /// The message a reader sees.
    pub fn message(&self) -> (r: String)
        ensures
            r@ == code_error_message(*self),
    {
        let mut out: Vec<char>;
        match self {
            DeckCodeError::BadCharacter(c) => {
                out = chars_of("deck code contains ");
                extend(&mut out, chars_of(debug_char(*c).as_str()).as_slice());
                extend(&mut out, chars_of(", not base32").as_slice());
            },
            DeckCodeError::Truncated => {
                out = chars_of("deck code ends before the deck does");
            },
            DeckCodeError::BadFormat(v) => {
                out = chars_of("unknown deck code format ");
                push_decimal(&mut out, *v as u32);
            },
            DeckCodeError::BadVersion(v) => {
                out = chars_of("deck code version ");
                push_decimal(&mut out, *v as u32);
                extend(&mut out, chars_of(" is newer than v").as_slice());
                push_decimal(&mut out, MAX_VERSION as u32);
            },
            DeckCodeError::BadSet(v) => {
                out = chars_of("unknown set id ");
                push_decimal(&mut out, *v as u32);
                extend(&mut out, chars_of(" in deck code").as_slice());
            },
            DeckCodeError::BadVariant(v) => {
                out = chars_of("unknown variant id ");
                push_decimal(&mut out, *v as u32);
                extend(&mut out, chars_of(" in deck code").as_slice());
            },
            DeckCodeError::BadPrefixFlag(v) => {
                out = chars_of("unknown card number prefix flag ");
                push_decimal(&mut out, *v as u32);
            },
            DeckCodeError::BadDeckFlag(v) => {
                out = chars_of("unknown deck level prefix flag ");
                push_decimal(&mut out, *v as u32);
            },
            DeckCodeError::BadCount(code, count) => {
                out = chars_of(code.as_str());
                extend(&mut out, chars_of(" has count ").as_slice());
                push_decimal(&mut out, *count);
                extend(&mut out, chars_of(", expected at least 1").as_slice());
            },
            DeckCodeError::NeedsNewerVersion(v, why) => {
                out = chars_of("deck cannot encode as v");
                push_decimal(&mut out, *v as u32);
                extend(&mut out, chars_of(": ").as_slice());
                extend(&mut out, chars_of(why.as_str()).as_slice());
            },
            DeckCodeError::Oversized => {
                out = chars_of("deck code describes an implausibly large deck");
            },
        }
        string_of(out.as_slice())
    }
}

/// A decoding failure, as plain values.
pub enum DecodeFault {
    BadCharacter(char),
    Truncated,
    BadFormat(u8),
    BadVersion(u8),
    BadSet(u8),
    BadVariant(u8),
    BadPrefixFlag(u8),
    BadDeckFlag(u8),
    Oversized,
}

impl DeckCodeError {
    /// Whether this error is the decoding failure `f`.
    pub open spec fn is_fault(&self, f: DecodeFault) -> bool {
        match (self, f) {
            (DeckCodeError::BadCharacter(a), DecodeFault::BadCharacter(b)) => a == b,
            (DeckCodeError::Truncated, DecodeFault::Truncated) => true,
            (DeckCodeError::BadFormat(a), DecodeFault::BadFormat(b)) => a == b,
            (DeckCodeError::BadVersion(a), DecodeFault::BadVersion(b)) => a == b,
            (DeckCodeError::BadSet(a), DecodeFault::BadSet(b)) => a == b,
            (DeckCodeError::BadVariant(a), DecodeFault::BadVariant(b)) => a == b,
            (DeckCodeError::BadPrefixFlag(a), DecodeFault::BadPrefixFlag(b)) => a == b,
            (DeckCodeError::BadDeckFlag(a), DecodeFault::BadDeckFlag(b)) => a == b,
            (DeckCodeError::Oversized, DecodeFault::Oversized) => true,
            _ => false,
        }
    }
}

fn fault(f: DecodeFault) -> (e: DeckCodeError)
    ensures
        e.is_fault(f),
{
    match f {
        DecodeFault::BadCharacter(c) => DeckCodeError::BadCharacter(c),
        DecodeFault::Truncated => DeckCodeError::Truncated,
        DecodeFault::BadFormat(v) => DeckCodeError::BadFormat(v),
        DecodeFault::BadVersion(v) => DeckCodeError::BadVersion(v),
        DecodeFault::BadSet(v) => DeckCodeError::BadSet(v),
        DecodeFault::BadVariant(v) => DeckCodeError::BadVariant(v),
        DecodeFault::BadPrefixFlag(v) => DeckCodeError::BadPrefixFlag(v),
        DecodeFault::BadDeckFlag(v) => DeckCodeError::BadDeckFlag(v),
        DecodeFault::Oversized => DeckCodeError::Oversized,
    }
}

// ---------------------------------------------------------------------------
// Base32
// ---------------------------------------------------------------------------

/// The base32 alphabet: `A`..`Z` then `2`..`7`.
pub open spec fn alphabet(v: u32) -> char {
    if v < 26 {
        ((v + 65) as u32) as char
    } else {
        ((v - 26 + 50) as u32) as char
    }
}

/// The value of an alphabet character, any ASCII case.
pub open spec fn alphabet_value(c: char) -> Option<u32> {
    if 'A' <= c && c <= 'Z' {
        Some(((c as u32) - 65) as u32)
    } else if 'a' <= c && c <= 'z' {
        Some(((c as u32) - 97) as u32)
    } else if '2' <= c && c <= '7' {
        Some(((c as u32) - 50 + 26) as u32)
    } else {
        None
    }
}

fn alphabet_char(v: u32) -> (c: char)
    requires
        v < 32,
    ensures
        c == alphabet(v),
{
    if v < 26 {
        ((v as u8) + 65) as char
    } else {
        ((v as u8) - 26 + 50) as char
    }
}

fn alphabet_index(c: char) -> (r: Option<u32>)
    ensures
        r == alphabet_value(c),
        r matches Some(v) ==> v < 32,
{
    if 'A' <= c && c <= 'Z' {
        Some((c as u32) - 65)
    } else if 'a' <= c && c <= 'z' {
        Some((c as u32) - 97)
    } else if '2' <= c && c <= '7' {
        Some((c as u32) - 50 + 26)
    } else {
        None
    }
}

/// Emits the 5-bit groups the buffer holds beyond its last `bits` bits.
pub open spec fn b32_emit(out: Seq<char>, buffer: u32, bits: u32) -> (Seq<char>, u32)
    decreases bits,
{
    if bits >= 5 {
        let b = (bits - 5) as u32;
        b32_emit(out.push(alphabet(((buffer >> b) & 0x1f) as u32)), buffer, b)
    } else {
        (out, bits)
    }
}

/// The encoder's state after `bytes`: text so far, bit buffer, bits pending.
pub open spec fn b32_state(bytes: Seq<u8>) -> (Seq<char>, u32, u32)
    decreases bytes.len(),
{
    if bytes.len() == 0 {
        (Seq::empty(), 0, 0)
    } else {
        let (out, buffer, bits) = b32_state(bytes.drop_last());
        let buffer2 = ((buffer << 8u32) | (bytes.last() as u32)) as u32;
        let (out2, bits2) = b32_emit(out, buffer2, (bits + 8) as u32);
        (out2, buffer2, bits2)
    }
}

/// Base32 without padding: every 5 bits a character, the last group
/// filled with zero bits.
pub open spec fn base32(bytes: Seq<u8>) -> Seq<char> {
    let (out, buffer, bits) = b32_state(bytes);
    if bits > 0 {
        out.push(alphabet(((buffer << ((5 - bits) as u32)) & 0x1f) as u32))
    } else {
        out
    }
}

pub proof fn lemma_b32_emit(out: Seq<char>, buffer: u32, bits: u32)
    ensures
        b32_emit(out, buffer, bits).1 < 5,
        bits < 5 ==> b32_emit(out, buffer, bits).1 == bits,
    decreases bits,
{
    if bits >= 5 {
        lemma_b32_emit(out.push(alphabet(((buffer >> ((bits - 5) as u32)) & 0x1f) as u32)), buffer, (bits - 5) as u32);
    }
}

pub proof fn lemma_b32_state_bits(bytes: Seq<u8>)
    ensures
        b32_state(bytes).2 < 5,
    decreases bytes.len(),
{
    if bytes.len() > 0 {
        lemma_b32_state_bits(bytes.drop_last());
        let (out, buffer, bits) = b32_state(bytes.drop_last());
        let buffer2 = ((buffer << 8u32) | (bytes.last() as u32)) as u32;
        lemma_b32_emit(out, buffer2, (bits + 8) as u32);
    }
}

fn emit(out: &mut Vec<char>, buffer: u32, start: u32) -> (left: u32)
    requires
        start < 13,
    ensures
        (final(out)@, left) == b32_emit(old(out)@, buffer, start),
{
    let mut bits = start;
    while bits >= 5
        invariant
            bits < 13,
            b32_emit(old(out)@, buffer, start) == b32_emit(out@, buffer, bits),
        decreases bits,
    {
        bits = bits - 5;
        let v = (buffer >> bits) & 0x1f;
        assert(v < 32) by (bit_vector)
            requires
                v == (buffer >> bits) & 0x1f,
        ;
        out.push(alphabet_char(v));
    }
    bits
}

pub fn base32_encode(bytes: &[u8]) -> (s: String)
    ensures
        s@ == base32(bytes@),
{
    let mut out: Vec<char> = Vec::new();
    let mut buffer: u32 = 0;
    let mut bits: u32 = 0;
    let mut i: usize = 0;
    while i < bytes.len()
        invariant
            i <= bytes@.len(),
            (out@, buffer, bits) == b32_state(bytes@.take(i as int)),
            bits < 5,
        decreases bytes@.len() - i,
    {
        assert(bytes@.take(i as int + 1).drop_last() =~= bytes@.take(i as int));
        buffer = (buffer << 8) | (bytes[i] as u32);
        bits = emit(&mut out, buffer, bits + 8);
        i = i + 1;
        proof {
            lemma_b32_state_bits(bytes@.take(i as int));
        }
    }
    assert(bytes@.take(i as int) =~= bytes@);
    if bits > 0 {
        buffer = buffer << (5 - bits);
        let v = buffer & 0x1f;
        assert(v < 32) by (bit_vector)
            requires
                v == buffer & 0x1f,
        ;
        out.push(alphabet_char(v));
    }
    string_of(out.as_slice())
}

/// The decoder's state after `cs`: bytes so far, bit buffer, bits pending;
/// or the first character outside the alphabet.
pub open spec fn b32_dec_state(cs: Seq<char>) -> Result<(Seq<u8>, u32, u32), char>
    decreases cs.len(),
{
    if cs.len() == 0 {
        Ok((Seq::empty(), 0, 0))
    } else {
        match b32_dec_state(cs.drop_last()) {
            Err(c) => Err(c),
            Ok((bytes, buffer, bits)) => match alphabet_value(cs.last()) {
                None => Err(cs.last()),
                Some(v) => {
                    let buffer2 = ((buffer << 5u32) | v) as u32;
                    let bits2 = (bits + 5) as u32;
                    if bits2 >= 8 {
                        let b = (bits2 - 8) as u32;
                        Ok((bytes.push(((buffer2 >> b) & 0xff) as u8), buffer2, b))
                    } else {
                        Ok((bytes, buffer2, bits2))
                    }
                },
            },
        }
    }
}

/// The bytes a base32 text spells; leftover bits are dropped.
pub open spec fn base32_bytes(cs: Seq<char>) -> Result<Seq<u8>, char> {
    match b32_dec_state(cs) {
        Ok((bytes, _, _)) => Ok(bytes),
        Err(c) => Err(c),
    }
}

pub proof fn lemma_b32_dec_bits(cs: Seq<char>)
    ensures
        b32_dec_state(cs) matches Ok((_, _, bits)) ==> bits < 8,
    decreases cs.len(),
{
    if cs.len() > 0 {
        lemma_b32_dec_bits(cs.drop_last());
    }
}

pub fn base32_decode(text: &[char]) -> (r: Result<Vec<u8>, DeckCodeError>)
    ensures
        match base32_bytes(text@) {
            Ok(b) => r matches Ok(v) && v@ == b,
            Err(c) => r matches Err(e) && e.is_fault(DecodeFault::BadCharacter(c)),
        },
{
    let mut bytes: Vec<u8> = Vec::new();
    let mut buffer: u32 = 0;
    let mut bits: u32 = 0;
    let mut i: usize = 0;
    while i < text.len()
        invariant
            i <= text@.len(),
            b32_dec_state(text@.take(i as int)) == Ok::<(Seq<u8>, u32, u32), char>((bytes@, buffer, bits)),
            bits < 8,
        decreases text@.len() - i,
    {
        let c = text[i];
        assert(text@.take(i as int + 1).drop_last() =~= text@.take(i as int));
        let v = match alphabet_index(c) {
            Some(v) => v,
            None => {
                proof {
                    lemma_dec_err_sticks(text@, i as int + 1);
                }
                return Err(DeckCodeError::BadCharacter(c));
            },
        };
        buffer = (buffer << 5) | v;
        bits = bits + 5;
        if bits >= 8 {
            bits = bits - 8;
            bytes.push(((buffer >> bits) & 0xff) as u8);
        }
        i = i + 1;
    }
    assert(text@.take(i as int) =~= text@);
    Ok(bytes)
}

/// Once a character is refused, every longer text is refused for it.
pub proof fn lemma_dec_err_sticks(cs: Seq<char>, k: int)
    requires
        0 <= k <= cs.len(),
        b32_dec_state(cs.take(k)) is Err,
    ensures
        b32_dec_state(cs) == b32_dec_state(cs.take(k)),
    decreases cs.len() - k,
{
    if k < cs.len() {
        assert(cs.take(k + 1).drop_last() =~= cs.take(k));
        lemma_dec_err_sticks(cs, k + 1);
    } else {
        assert(cs.take(k) =~= cs);
    }
}


// ---------------------------------------------------------------------------
// Reading the byte format
// ---------------------------------------------------------------------------

pub type Read<T> = Result<(T, int), DecodeFault>;

pub open spec fn read_byte(b: Seq<u8>, pos: int) -> Read<u8> {
    if 0 <= pos < b.len() {
        Ok((b[pos], pos + 1))
    } else {
        Err(DecodeFault::Truncated)
    }
}

/// A little-endian base-128 varint of at most five bytes that fits a `u32`.
pub open spec fn varint_from(b: Seq<u8>, pos: int, acc: u64, shift: u32) -> Read<u32>
    decreases 35 - shift,
{
    match read_byte(b, pos) {
        Err(e) => Err(e),
        Ok((byte, p)) => {
            let acc2 = (acc | (((byte & 0x7f) as u64) << (shift as u64))) as u64;
            if byte & 0x80 == 0 {
                if acc2 > u32::MAX {
                    Err(DecodeFault::Oversized)
                } else {
                    Ok((acc2 as u32, p))
                }
            } else if shift + 7 > 28 {
                Err(DecodeFault::Oversized)
            } else {
                varint_from(b, p, acc2, (shift + 7) as u32)
            }
        },
    }
}

pub open spec fn read_varint(b: Seq<u8>, pos: int) -> Read<u32> {
    varint_from(b, pos, 0, 0)
}

/// A card number: a bare varint, or a kind flag then a varint.
pub open spec fn read_number(b: Seq<u8>, pos: int, flagged: bool) -> Read<CardNumber> {
    if !flagged {
        match read_varint(b, pos) {
            Err(e) => Err(e),
            Ok((v, p)) => Ok((CardNumber::Normal(v), p)),
        }
    } else {
        match read_byte(b, pos) {
            Err(e) => Err(e),
            Ok((flag, p)) => match read_varint(b, p) {
                Err(e) => Err(e),
                Ok((v, p2)) => if flag == 0 {
                    Ok((CardNumber::Normal(v), p2))
                } else if flag == 1 {
                    Ok((CardNumber::Rune(v), p2))
                } else if flag == 2 {
                    Ok((CardNumber::Special(v), p2))
                } else {
                    Err(DecodeFault::BadPrefixFlag(flag))
                },
            },
        }
    }
}

/// A set byte and a variant byte.
pub open spec fn read_set_variant(b: Seq<u8>, pos: int) -> Read<(SetCode, Variant)> {
    match read_byte(b, pos) {
        Err(e) => Err(e),
        Ok((sb, p)) => match set_from_wire(sb) {
            None => Err(DecodeFault::BadSet(sb)),
            Some(set) => match read_byte(b, p) {
                Err(e) => Err(e),
                Ok((vb, p2)) => match variant_from_wire(vb) {
                    None => Err(DecodeFault::BadVariant(vb)),
                    Some(variant) => Ok(((set, variant), p2)),
                },
            },
        },
    }
}

/// A group header: how many cards, their set and their variant.
pub open spec fn read_group_header(b: Seq<u8>, pos: int) -> Read<(u32, SetCode, Variant)> {
    match read_varint(b, pos) {
        Err(e) => Err(e),
        Ok((cards, p)) => if cards > SECTION_LIMIT {
            Err(DecodeFault::Oversized)
        } else {
            match read_set_variant(b, p) {
                Err(e) => Err(e),
                Ok(((set, variant), p2)) => Ok(((cards, set, variant), p2)),
            }
        },
    }
}

/// `n` card numbers of one group, appended to `acc` with `count` copies each.
pub open spec fn cards_acc(
    b: Seq<u8>,
    pos: int,
    n: nat,
    set: SetCode,
    variant: Variant,
    count: u32,
    flagged: bool,
    acc: Seq<CodeEntry>,
) -> Read<Seq<CodeEntry>>
    decreases n,
{
    if n == 0 {
        Ok((acc, pos))
    } else {
        match read_number(b, pos, flagged) {
            Err(e) => Err(e),
            Ok((number, p)) => cards_acc(
                b,
                p,
                (n - 1) as nat,
                set,
                variant,
                count,
                flagged,
                acc.push(CodeEntry { code: CardCode { set, number, variant }, count }),
            ),
        }
    }
}

/// `g` groups, each a header and its card numbers.
pub open spec fn groups_acc(
    b: Seq<u8>,
    pos: int,
    g: nat,
    count: u32,
    flagged: bool,
    acc: Seq<CodeEntry>,
) -> Read<Seq<CodeEntry>>
    decreases g,
{
    if g == 0 {
        Ok((acc, pos))
    } else {
        match read_group_header(b, pos) {
            Err(e) => Err(e),
            Ok(((cards, set, variant), p)) => match cards_acc(
                b,
                p,
                cards as nat,
                set,
                variant,
                count,
                flagged,
                acc,
            ) {
                Err(e) => Err(e),
                Ok((acc2, p2)) => groups_acc(b, p2, (g - 1) as nat, count, flagged, acc2),
            },
        }
    }
}

/// A group count, then that many groups of cards with `count` copies.
pub open spec fn count_block(b: Seq<u8>, pos: int, count: u32, flagged: bool, acc: Seq<CodeEntry>) -> Read<Seq<CodeEntry>> {
    match read_varint(b, pos) {
        Err(e) => Err(e),
        Ok((groups, p)) => if groups > SECTION_LIMIT {
            Err(DecodeFault::Oversized)
        } else {
            groups_acc(b, p, groups as nat, count, flagged, acc)
        },
    }
}

/// The fixed layout: one block per copy count, from `count` down to one.
pub open spec fn fixed_acc(b: Seq<u8>, pos: int, count: u32, flagged: bool, acc: Seq<CodeEntry>) -> Read<Seq<CodeEntry>>
    decreases count,
{
    if count == 0 {
        Ok((acc, pos))
    } else {
        match count_block(b, pos, count, flagged, acc) {
            Err(e) => Err(e),
            Ok((acc2, p)) => fixed_acc(b, p, (count - 1) as u32, flagged, acc2),
        }
    }
}

/// `k` blocks of the sparse layout, each naming its copy count.
pub open spec fn sparse_acc(b: Seq<u8>, pos: int, k: nat, flagged: bool, acc: Seq<CodeEntry>) -> Read<Seq<CodeEntry>>
    decreases k,
{
    if k == 0 {
        Ok((acc, pos))
    } else {
        match read_varint(b, pos) {
            Err(e) => Err(e),
            Ok((count, p)) => match count_block(b, p, count, flagged, acc) {
                Err(e) => Err(e),
                Ok((acc2, p2)) => sparse_acc(b, p2, (k - 1) as nat, flagged, acc2),
            },
        }
    }
}

/// The sparse layout: how many counts, then a block per count.
pub open spec fn read_sparse(b: Seq<u8>, pos: int, flagged: bool) -> Read<Seq<CodeEntry>> {
    match read_varint(b, pos) {
        Err(e) => Err(e),
        Ok((counts, p)) => if counts > SECTION_LIMIT {
            Err(DecodeFault::Oversized)
        } else {
            sparse_acc(b, p, counts as nat, flagged, Seq::empty())
        },
    }
}

/// The chosen champion of versions 3 and up: a zero byte, or a marker then
/// the card.
pub open spec fn read_champion(b: Seq<u8>, pos: int, flagged: bool) -> Read<Option<CardCode>> {
    match read_byte(b, pos) {
        Err(e) => Err(e),
        Ok((marker, p)) => if marker == 0 {
            Ok((None, p))
        } else {
            match read_set_variant(b, p) {
                Err(e) => Err(e),
                Ok(((set, variant), p2)) => match read_number(b, p2, flagged) {
                    Err(e) => Err(e),
                    Ok((number, p3)) => Ok((Some(CardCode { set, number, variant }), p3)),
                },
            }
        },
    }
}

/// The deck a code's bytes hold: main deck, sideboard and champion.
pub type DeckSpec = (Seq<CodeEntry>, Seq<CodeEntry>, Option<CardCode>);

/// The sections after the header byte of a version `version` code.
pub open spec fn decode_body(b: Seq<u8>, version: u8) -> Result<DeckSpec, DecodeFault> {
    let flags: Result<(bool, int), DecodeFault> = if version >= 5 {
        match read_byte(b, 1) {
            Err(e) => Err(e),
            Ok((f, p)) => if f == 0 {
                Ok((false, p))
            } else if f == 1 {
                Ok((true, p))
            } else {
                Err(DecodeFault::BadDeckFlag(f))
            },
        }
    } else {
        Ok((version >= 4, 1))
    };
    match flags {
        Err(e) => Err(e),
        Ok((flagged, p)) => {
            let sections: Read<(Seq<CodeEntry>, Seq<CodeEntry>)> = if version >= 5 {
                match read_sparse(b, p, flagged) {
                    Err(e) => Err(e),
                    Ok((main, p2)) => match read_sparse(b, p2, flagged) {
                        Err(e) => Err(e),
                        Ok((side, p3)) => Ok(((main, side), p3)),
                    },
                }
            } else {
                match fixed_acc(b, p, MAIN_COUNT_CEILING, flagged, Seq::empty()) {
                    Err(e) => Err(e),
                    Ok((main, p2)) => if version >= 2 {
                        match fixed_acc(b, p2, SIDE_COUNT_CEILING, flagged, Seq::empty()) {
                            Err(e) => Err(e),
                            Ok((side, p3)) => Ok(((main, side), p3)),
                        }
                    } else {
                        Ok(((main, Seq::empty()), p2))
                    },
                }
            };
            match sections {
                Err(e) => Err(e),
                Ok(((main, side), p2)) => if version >= 3 {
                    match read_champion(b, p2, flagged) {
                        Err(e) => Err(e),
                        Ok((champion, _)) => Ok((main, side, champion)),
                    }
                } else {
                    Ok((main, side, None))
                },
            }
        },
    }
}

/// The deck a code's bytes hold: the header names format 1 and a version
/// from 1 to 5, and the sections of that version follow.
pub open spec fn decode_bytes(b: Seq<u8>) -> Result<DeckSpec, DecodeFault> {
    match read_byte(b, 0) {
        Err(e) => Err(e),
        Ok((header, _)) => {
            let format = header >> 4u8;
            let version = header & 0x0fu8;
            if format != FORMAT {
                Err(DecodeFault::BadFormat(format))
            } else if version == 0 || version > MAX_VERSION {
                Err(DecodeFault::BadVersion(version))
            } else {
                decode_body(b, version)
            }
        },
    }
}

/// The deck a code spells, surrounding white space aside.
pub open spec fn decode_text(code: Seq<char>) -> Result<DeckSpec, DecodeFault> {
    match base32_bytes(trim(code)) {
        Err(c) => Err(DecodeFault::BadCharacter(c)),
        Ok(b) => decode_bytes(b),
    }
}

proof fn lemma_b32_lower(cs: Seq<char>)
    ensures
        b32_dec_state(lower_seq(cs)) == b32_dec_state(cs),
    decreases cs.len(),
{
    if cs.len() > 0 {
        assert(lower_seq(cs).drop_last() =~= lower_seq(cs.drop_last()));
        assert(lower_seq(cs).last() == lower(cs.last()));
        lemma_b32_lower(cs.drop_last());
    }
}

/// A deck code reads the same in lower case and with white space around
/// it, whether it reads or not.
pub proof fn lemma_decode_ignores_case_and_padding(before: Seq<char>, code: Seq<char>, after: Seq<char>)
    requires
        all_ws(before),
        all_ws(after),
    ensures
        decode_text(before + lower_seq(code) + after) == decode_text(code),
{
    lemma_trim_padded(before, lower_seq(code), after);
    lemma_trim_lower(code);
    lemma_b32_lower(trim(code));
}

impl DecodedDeck {
    pub open spec fn spec(&self) -> DeckSpec {
        (self.main@, self.sideboard@, self.champion)
    }
}

fn byte_at(b: &[u8], pos: &mut usize) -> (r: Result<u8, DeckCodeError>)
    ensures
        match read_byte(b@, *old(pos) as int) {
            Ok((v, p)) => r == Ok::<u8, DeckCodeError>(v) && *final(pos) == p,
            Err(f) => r matches Err(e) && e.is_fault(f),
        },
{
    if *pos < b.len() {
        let v = b[*pos];
        *pos = *pos + 1;
        Ok(v)
    } else {
        Err(DeckCodeError::Truncated)
    }
}

fn varint_at(b: &[u8], pos: &mut usize) -> (r: Result<u32, DeckCodeError>)
    ensures
        match read_varint(b@, *old(pos) as int) {
            Ok((v, p)) => r == Ok::<u32, DeckCodeError>(v) && *final(pos) == p,
            Err(f) => r matches Err(e) && e.is_fault(f),
        },
{
    let mut result: u64 = 0;
    let mut shift: u32 = 0;
    loop
        invariant
            shift <= 28,
            shift % 7 == 0,
            result < 0x1_0000_0000_0000_0000,
            read_varint(b@, *old(pos) as int) == varint_from(b@, *pos as int, result, shift),
        decreases 35 - shift,
    {
        let byte = byte_at(b, pos)?;
        let part = ((byte & 0x7f) as u64) << (shift as u64);
        result = result | part;
        if byte & 0x80 == 0 {
            if result > 0xffff_ffff {
                return Err(DeckCodeError::Oversized);
            }
            return Ok(result as u32);
        }
        if shift + 7 > 28 {
            return Err(DeckCodeError::Oversized);
        }
        shift = shift + 7;
    }
}

fn number_at(b: &[u8], pos: &mut usize, flagged: bool) -> (r: Result<CardNumber, DeckCodeError>)
    ensures
        match read_number(b@, *old(pos) as int, flagged) {
            Ok((v, p)) => r == Ok::<CardNumber, DeckCodeError>(v) && *final(pos) == p,
            Err(f) => r matches Err(e) && e.is_fault(f),
        },
{
    if !flagged {
        let v = varint_at(b, pos)?;
        return Ok(CardNumber::Normal(v));
    }
    let flag = byte_at(b, pos)?;
    let value = varint_at(b, pos)?;
    match flag {
        0 => Ok(CardNumber::Normal(value)),
        1 => Ok(CardNumber::Rune(value)),
        2 => Ok(CardNumber::Special(value)),
        other => Err(DeckCodeError::BadPrefixFlag(other)),
    }
}

fn set_variant_at(b: &[u8], pos: &mut usize) -> (r: Result<(SetCode, Variant), DeckCodeError>)
    ensures
        match read_set_variant(b@, *old(pos) as int) {
            Ok((v, p)) => r == Ok::<(SetCode, Variant), DeckCodeError>(v) && *final(pos) == p,
            Err(f) => r matches Err(e) && e.is_fault(f),
        },
{
    let set_byte = byte_at(b, pos)?;
    let set = match SetCode::from_wire(set_byte) {
        Some(s) => s,
        None => {
            return Err(DeckCodeError::BadSet(set_byte));
        },
    };
    let variant_byte = byte_at(b, pos)?;
    let variant = match Variant::from_wire(variant_byte) {
        Some(v) => v,
        None => {
            return Err(DeckCodeError::BadVariant(variant_byte));
        },
    };
    Ok((set, variant))
}

fn group_header_at(b: &[u8], pos: &mut usize) -> (r: Result<(u32, SetCode, Variant), DeckCodeError>)
    ensures
        match read_group_header(b@, *old(pos) as int) {
            Ok((v, p)) => r == Ok::<(u32, SetCode, Variant), DeckCodeError>(v) && *final(pos) == p,
            Err(f) => r matches Err(e) && e.is_fault(f),
        },
{
    let cards = varint_at(b, pos)?;
    if cards > SECTION_LIMIT {
        return Err(DeckCodeError::Oversized);
    }
    let (set, variant) = set_variant_at(b, pos)?;
    Ok((cards, set, variant))
}

fn cards_at(
    b: &[u8],
    pos: &mut usize,
    n: u32,
    set: SetCode,
    variant: Variant,
    count: u32,
    flagged: bool,
    entries: &mut Vec<CodeEntry>,
) -> (r: Result<(), DeckCodeError>)
    ensures
        match cards_acc(b@, *old(pos) as int, n as nat, set, variant, count, flagged, old(entries)@) {
            Ok((acc, p)) => r is Ok && final(entries)@ == acc && *final(pos) == p,
            Err(f) => r matches Err(e) && e.is_fault(f),
        },
{
    let mut i: u32 = 0;
    while i < n
        invariant
            i <= n,
            cards_acc(b@, *old(pos) as int, n as nat, set, variant, count, flagged, old(entries)@)
                == cards_acc(b@, *pos as int, (n - i) as nat, set, variant, count, flagged, entries@),
        decreases n - i,
    {
        let number = number_at(b, pos, flagged)?;
        entries.push(CodeEntry { code: CardCode { set, number, variant }, count });
        i = i + 1;
    }
    Ok(())
}

fn groups_at(b: &[u8], pos: &mut usize, g: u32, count: u32, flagged: bool, entries: &mut Vec<CodeEntry>) -> (r: Result<(), DeckCodeError>)
    ensures
        match groups_acc(b@, *old(pos) as int, g as nat, count, flagged, old(entries)@) {
            Ok((acc, p)) => r is Ok && final(entries)@ == acc && *final(pos) == p,
            Err(f) => r matches Err(e) && e.is_fault(f),
        },
{
    let mut i: u32 = 0;
    while i < g
        invariant
            i <= g,
            groups_acc(b@, *old(pos) as int, g as nat, count, flagged, old(entries)@) == groups_acc(
                b@,
                *pos as int,
                (g - i) as nat,
                count,
                flagged,
                entries@,
            ),
        decreases g - i,
    {
        let (cards, set, variant) = group_header_at(b, pos)?;
        cards_at(b, pos, cards, set, variant, count, flagged, entries)?;
        i = i + 1;
    }
    Ok(())
}

fn count_block_at(b: &[u8], pos: &mut usize, count: u32, flagged: bool, entries: &mut Vec<CodeEntry>) -> (r: Result<(), DeckCodeError>)
    ensures
        match count_block(b@, *old(pos) as int, count, flagged, old(entries)@) {
            Ok((acc, p)) => r is Ok && final(entries)@ == acc && *final(pos) == p,
            Err(f) => r matches Err(e) && e.is_fault(f),
        },
{
    let groups = varint_at(b, pos)?;
    if groups > SECTION_LIMIT {
        return Err(DeckCodeError::Oversized);
    }
    groups_at(b, pos, groups, count, flagged, entries)
}

fn read_fixed_section(b: &[u8], pos: &mut usize, ceiling: u32, flagged: bool) -> (r: Result<Vec<CodeEntry>, DeckCodeError>)
    ensures
        match fixed_acc(b@, *old(pos) as int, ceiling, flagged, Seq::empty()) {
            Ok((acc, p)) => r matches Ok(v) && v@ == acc && *final(pos) == p,
            Err(f) => r matches Err(e) && e.is_fault(f),
        },
{
    let mut entries: Vec<CodeEntry> = Vec::new();
    let mut count: u32 = ceiling;
    while count > 0
        invariant
            fixed_acc(b@, *old(pos) as int, ceiling, flagged, Seq::empty()) == fixed_acc(
                b@,
                *pos as int,
                count,
                flagged,
                entries@,
            ),
        decreases count,
    {
        count_block_at(b, pos, count, flagged, &mut entries)?;
        count = count - 1;
    }
    Ok(entries)
}

fn read_sparse_section(b: &[u8], pos: &mut usize, flagged: bool) -> (r: Result<Vec<CodeEntry>, DeckCodeError>)
    ensures
        match read_sparse(b@, *old(pos) as int, flagged) {
            Ok((acc, p)) => r matches Ok(v) && v@ == acc && *final(pos) == p,
            Err(f) => r matches Err(e) && e.is_fault(f),
        },
{
    let mut entries: Vec<CodeEntry> = Vec::new();
    let counts = varint_at(b, pos)?;
    if counts > SECTION_LIMIT {
        return Err(DeckCodeError::Oversized);
    }
    let mut i: u32 = 0;
    while i < counts
        invariant
            i <= counts,
            read_sparse(b@, *old(pos) as int, flagged) == sparse_acc(
                b@,
                *pos as int,
                (counts - i) as nat,
                flagged,
                entries@,
            ),
        decreases counts - i,
    {
        let count = varint_at(b, pos)?;
        count_block_at(b, pos, count, flagged, &mut entries)?;
        i = i + 1;
    }
    Ok(entries)
}

fn champion_at(b: &[u8], pos: &mut usize, flagged: bool) -> (r: Result<Option<CardCode>, DeckCodeError>)
    ensures
        match read_champion(b@, *old(pos) as int, flagged) {
            Ok((v, p)) => r == Ok::<Option<CardCode>, DeckCodeError>(v) && *final(pos) == p,
            Err(f) => r matches Err(e) && e.is_fault(f),
        },
{
    let marker = byte_at(b, pos)?;
    if marker == 0 {
        return Ok(None);
    }
    let (set, variant) = set_variant_at(b, pos)?;
    let number = number_at(b, pos, flagged)?;
    Ok(Some(CardCode { set, number, variant }))
}

/// The deck a code's bytes hold.
pub fn decode_bytes_of(b: &[u8]) -> (r: Result<DecodedDeck, DeckCodeError>)
    ensures
        match decode_bytes(b@) {
            Ok(d) => r matches Ok(deck) && deck.spec() == d,
            Err(f) => r matches Err(e) && e.is_fault(f),
        },
{
    let mut pos: usize = 0;
    let header = byte_at(b, &mut pos)?;
    let format = header >> 4;
    let version = header & 0x0f;
    if format != FORMAT {
        return Err(DeckCodeError::BadFormat(format));
    }
    if version == 0 || version > MAX_VERSION {
        return Err(DeckCodeError::BadVersion(version));
    }
    let flagged = if version >= 5 {
        match byte_at(b, &mut pos)? {
            0 => false,
            1 => true,
            other => {
                return Err(DeckCodeError::BadDeckFlag(other));
            },
        }
    } else {
        version >= 4
    };
    let (main, sideboard) = if version >= 5 {
        let main = read_sparse_section(b, &mut pos, flagged)?;
        let side = read_sparse_section(b, &mut pos, flagged)?;
        (main, side)
    } else {
        let main = read_fixed_section(b, &mut pos, MAIN_COUNT_CEILING, flagged)?;
        let side = if version >= 2 {
            read_fixed_section(b, &mut pos, SIDE_COUNT_CEILING, flagged)?
        } else {
            Vec::new()
        };
        (main, side)
    };
    let champion = if version >= 3 {
        champion_at(b, &mut pos, flagged)?
    } else {
        None
    };
    Ok(DecodedDeck { main, sideboard, champion })
}

/// Reads a deck code; case and surrounding white space do not matter.
pub fn decode(code: &str) -> (r: Result<DecodedDeck, DeckCodeError>)
    ensures
        match decode_text(code@) {
            Ok(d) => r matches Ok(deck) && deck.spec() == d,
            Err(f) => r matches Err(e) && e.is_fault(f),
        },
{
    let cs = chars_of(code);
    let trimmed = trim_of(cs.as_slice());
    let bytes = base32_decode(trimmed.as_slice())?;
    decode_bytes_of(bytes.as_slice())
}


// ---------------------------------------------------------------------------
// Writing the byte format
// ---------------------------------------------------------------------------

/// The varint bytes of `v`: seven bits a byte, low bits first, the high bit
/// set on every byte but the last.
pub open spec fn varint_bytes(v: u32) -> Seq<u8>
    decreases v,
{
    let byte = (v & 0x7f) as u8;
    let rest = (v >> 7u32) as u32;
    if rest != 0 {
        proof {
            assert(rest < v) by (bit_vector)
                requires
                    rest == v >> 7u32,
                    rest != 0,
            ;
        }
        seq![(byte | 0x80) as u8] + varint_bytes(rest)
    } else {
        seq![byte]
    }
}

pub fn push_varint(bytes: &mut Vec<u8>, value: u32)
    ensures
        final(bytes)@ == old(bytes)@ + varint_bytes(value),
    decreases value,
{
    let byte = (value & 0x7f) as u8;
    let rest = value >> 7;
    if rest != 0 {
        assert(rest < value) by (bit_vector)
            requires
                rest == value >> 7,
                rest != 0,
        ;
        bytes.push(byte | 0x80);
        push_varint(bytes, rest);
        assert(bytes@ =~= old(bytes)@ + varint_bytes(value));
    } else {
        bytes.push(byte);
        assert(bytes@ =~= old(bytes)@ + varint_bytes(value));
    }
}

pub open spec fn number_kind_flag(n: CardNumber) -> (u8, u32) {
    match n {
        CardNumber::Normal(v) => (0u8, v),
        CardNumber::Rune(v) => (1u8, v),
        CardNumber::Special(v) => (2u8, v),
    }
}

/// A card number's bytes: flagged, its kind byte then its varint; otherwise
/// the varint of a plain number.
pub open spec fn number_bytes(n: CardNumber, flagged: bool) -> Seq<u8> {
    let (flag, v) = number_kind_flag(n);
    if flagged {
        seq![flag] + varint_bytes(v)
    } else {
        varint_bytes(v)
    }
}

fn push_number(bytes: &mut Vec<u8>, number: CardNumber, flagged: bool)
    requires
        flagged || number is Normal,
    ensures
        final(bytes)@ == old(bytes)@ + number_bytes(number, flagged),
{
    if flagged {
        let (flag, value): (u8, u32) = match number {
            CardNumber::Normal(value) => (0, value),
            CardNumber::Rune(value) => (1, value),
            CardNumber::Special(value) => (2, value),
        };
        bytes.push(flag);
        push_varint(bytes, value);
        assert(bytes@ =~= old(bytes)@ + number_bytes(number, flagged));
    } else {
        let value = match number {
            CardNumber::Normal(value) => value,
            CardNumber::Rune(value) => value,
            CardNumber::Special(value) => value,
        };
        push_varint(bytes, value);
    }
}

/// The order of card codes: set, number kind, number, variant.
pub open spec fn code_key(c: CardCode) -> int {
    let set = match c.set {
        SetCode::Ogn => 0int,
        SetCode::Ogs => 1,
        SetCode::Arc => 2,
        SetCode::Sfd => 3,
        SetCode::Unl => 4,
        SetCode::Ven => 5,
        SetCode::Rad => 6,
        SetCode::Opp => 7,
        SetCode::Pr => 8,
        SetCode::Jdg => 9,
    };
    let (kind, value) = number_kind_flag(c.number);
    ((set * 3 + kind as int) * 0x1_0000_0000 + value as int) * 4 + variant_wire(c.variant) as int
}

proof fn lemma_code_key_injective(a: CardCode, b: CardCode)
    ensures
        code_key(a) == code_key(b) ==> a == b,
{
}

fn key_of(c: CardCode) -> (k: u64)
    ensures
        k as int == code_key(c),
{
    let set: u64 = match c.set {
        SetCode::Ogn => 0,
        SetCode::Ogs => 1,
        SetCode::Arc => 2,
        SetCode::Sfd => 3,
        SetCode::Unl => 4,
        SetCode::Ven => 5,
        SetCode::Rad => 6,
        SetCode::Opp => 7,
        SetCode::Pr => 8,
        SetCode::Jdg => 9,
    };
    let (kind, value): (u64, u64) = match c.number {
        CardNumber::Normal(v) => (0, v as u64),
        CardNumber::Rune(v) => (1, v as u64),
        CardNumber::Special(v) => (2, v as u64),
    };
    ((set * 3 + kind) * 0x1_0000_0000 + value) * 4 + (c.variant.to_wire() as u64)
}

/// Card totals: distinct codes in ascending code order with their copies.
pub type Totals = Seq<(CardCode, u32)>;

/// Adds `count` copies of `code` to totals kept in code order.
pub open spec fn add_copies(t: Totals, code: CardCode, count: u32) -> Totals
    decreases t.len(),
{
    if t.len() == 0 {
        seq![(code, count)]
    } else if t[0].0 == code {
        seq![(code, (t[0].1 + count) as u32)] + t.drop_first()
    } else if code_key(code) < code_key(t[0].0) {
        seq![(code, count)] + t
    } else {
        seq![t[0]] + add_copies(t.drop_first(), code, count)
    }
}

/// The totals of a list of entries, or the first entry with no copies.
pub open spec fn aggregate_spec(entries: Seq<CodeEntry>) -> Result<Totals, CodeEntry>
    decreases entries.len(),
{
    if entries.len() == 0 {
        Ok(Seq::empty())
    } else {
        match aggregate_spec(entries.drop_last()) {
            Err(e) => Err(e),
            Ok(t) => {
                let e = entries.last();
                if e.count == 0 {
                    Err(e)
                } else {
                    Ok(add_copies(t, e.code, e.count))
                }
            },
        }
    }
}

/// How many copies of `code` the entries ask for.
pub open spec fn copies_of(entries: Seq<CodeEntry>, code: CardCode) -> nat
    decreases entries.len(),
{
    if entries.len() == 0 {
        0
    } else {
        copies_of(entries.drop_last(), code) + if entries.last().code == code {
            entries.last().count as nat
        } else {
            0
        }
    }
}

/// The copies totals hold for `code`.
pub open spec fn held(t: Totals, code: CardCode) -> nat
    decreases t.len(),
{
    if t.len() == 0 {
        0
    } else {
        (if t[0].0 == code { t[0].1 as nat } else { 0 }) + held(t.drop_first(), code)
    }
}

pub proof fn lemma_add_copies_held(t: Totals, code: CardCode, count: u32, c: CardCode)
    requires
        held(t, code) + count <= u32::MAX,
    ensures
        held(add_copies(t, code, count), c) == held(t, c) + if c == code {
            count as nat
        } else {
            0
        },
    decreases t.len(),
{
    if t.len() > 0 && t[0].0 != code && code_key(code) >= code_key(t[0].0) {
        lemma_add_copies_held(t.drop_first(), code, count, c);
        let n = seq![t[0]] + add_copies(t.drop_first(), code, count);
        assert(add_copies(t, code, count) == n);
        assert(n[0] == t[0]);
        assert(n.drop_first() =~= add_copies(t.drop_first(), code, count));
        assert(held(n, c) == (if n[0].0 == c { n[0].1 as nat } else { 0 }) + held(n.drop_first(), c));
        assert(held(t, c) == (if t[0].0 == c { t[0].1 as nat } else { 0 }) + held(t.drop_first(), c));
    } else if t.len() > 0 && t[0].0 == code {
        let n = seq![(code, (t[0].1 + count) as u32)] + t.drop_first();
        assert(add_copies(t, code, count) == n);
        assert(n[0] == (code, (t[0].1 + count) as u32));
        assert(n.drop_first() =~= t.drop_first());
        assert(held(t, code) == t[0].1 + held(t.drop_first(), code));
        assert(held(n, c) == (if n[0].0 == c { n[0].1 as nat } else { 0 }) + held(n.drop_first(), c));
        assert(held(t, c) == (if t[0].0 == c { t[0].1 as nat } else { 0 }) + held(t.drop_first(), c));
    } else if t.len() > 0 {
        let n = seq![(code, count)] + t;
        assert(add_copies(t, code, count) == n);
        assert(n[0] == (code, count));
        assert(n.drop_first() =~= t);
        assert(held(n, c) == (if n[0].0 == c { n[0].1 as nat } else { 0 }) + held(n.drop_first(), c));
    } else {
        let n = seq![(code, count)];
        assert(n.drop_first() =~= Seq::<(CardCode, u32)>::empty());
        assert(held(n.drop_first(), c) == 0);
        assert(held(n, c) == (if n[0].0 == c { n[0].1 as nat } else { 0 }) + held(n.drop_first(), c));
        assert(held(t, c) == 0);
    }
}

pub proof fn lemma_aggregate_held(entries: Seq<CodeEntry>, c: CardCode)
    requires
        aggregate_spec(entries) is Ok,
        forall|x: CardCode| copies_of(entries, x) <= u32::MAX,
    ensures
        held(aggregate_spec(entries)->Ok_0, c) == copies_of(entries, c),
    decreases entries.len(),
{
    if entries.len() > 0 {
        let pre = entries.drop_last();
        assert forall|x: CardCode| copies_of(pre, x) <= u32::MAX by {
            assert(copies_of(entries, x) >= copies_of(pre, x));
        }
        lemma_aggregate_held(pre, c);
        let e = entries.last();
        lemma_aggregate_held(pre, e.code);
        assert(copies_of(entries, e.code) <= u32::MAX);
        lemma_add_copies_held(aggregate_spec(pre)->Ok_0, e.code, e.count, c);
    }
}

pub proof fn lemma_aggregate_prefix_ok(entries: Seq<CodeEntry>, k: int)
    requires
        0 <= k <= entries.len(),
        aggregate_spec(entries) is Ok,
    ensures
        aggregate_spec(entries.take(k)) is Ok,
    decreases entries.len() - k,
{
    if k < entries.len() {
        assert(entries.take(k + 1).drop_last() =~= entries.take(k));
        lemma_aggregate_prefix_ok(entries, k + 1);
    } else {
        assert(entries.take(k) =~= entries);
    }
}

/// Within `t`, the totals of `set`/`variant` cards with exactly `count`
/// copies, their numbers in order.
pub open spec fn numbers_in(t: Totals, set: SetCode, variant: Variant, count: u32) -> Seq<CardNumber>
    decreases t.len(),
{
    if t.len() == 0 {
        Seq::empty()
    } else {
        let rest = numbers_in(t.drop_last(), set, variant, count);
        let (code, total) = t.last();
        if code.set == set && code.variant == variant && total == count {
            rest.push(code.number)
        } else {
            rest
        }
    }
}

pub open spec fn set_at(k: int) -> SetCode {
    if k == 0 {
        SetCode::Ogn
    } else if k == 1 {
        SetCode::Ogs
    } else if k == 2 {
        SetCode::Arc
    } else if k == 3 {
        SetCode::Sfd
    } else if k == 4 {
        SetCode::Unl
    } else if k == 5 {
        SetCode::Ven
    } else if k == 6 {
        SetCode::Rad
    } else if k == 7 {
        SetCode::Opp
    } else if k == 8 {
        SetCode::Pr
    } else {
        SetCode::Jdg
    }
}

pub open spec fn variant_at(k: int) -> Variant {
    if k == 0 {
        Variant::Base
    } else if k == 1 {
        Variant::Alternate
    } else if k == 2 {
        Variant::Signed
    } else {
        Variant::B
    }
}

pub type Group = ((SetCode, Variant), Seq<CardNumber>);

/// The groups of cards with `count` copies: one per set and variant that
/// has any, in set then variant order, from the `k`-th pair on.
pub open spec fn groups_from(t: Totals, count: u32, k: int) -> Seq<Group>
    decreases 40 - k,
{
    if k >= 40 || k < 0 {
        Seq::empty()
    } else {
        let set = set_at(k / 4);
        let variant = variant_at(k % 4);
        let nums = numbers_in(t, set, variant, count);
        let here: Seq<Group> = if nums.len() > 0 {
            seq![((set, variant), nums)]
        } else {
            Seq::empty()
        };
        here + groups_from(t, count, k + 1)
    }
}

pub open spec fn groups_for(t: Totals, count: u32) -> Seq<Group> {
    groups_from(t, count, 0)
}

pub open spec fn numbers_bytes(nums: Seq<CardNumber>, flagged: bool) -> Seq<u8>
    decreases nums.len(),
{
    if nums.len() == 0 {
        Seq::empty()
    } else {
        numbers_bytes(nums.drop_last(), flagged) + number_bytes(nums.last(), flagged)
    }
}

pub open spec fn group_list_bytes(groups: Seq<Group>, flagged: bool) -> Seq<u8>
    decreases groups.len(),
{
    if groups.len() == 0 {
        Seq::empty()
    } else {
        let ((set, variant), nums) = groups.last();
        group_list_bytes(groups.drop_last(), flagged) + varint_bytes(nums.len() as u32) + seq![
            match spec_wire(set) {
                Some(w) => w,
                None => 255u8,
            },
            variant_wire(variant),
        ] + numbers_bytes(nums, flagged)
    }
}

/// A block of groups: how many, then each group.
pub open spec fn groups_bytes(groups: Seq<Group>, flagged: bool) -> Seq<u8> {
    varint_bytes(groups.len() as u32) + group_list_bytes(groups, flagged)
}

/// The fixed layout: blocks for `count` copies down to one.
pub open spec fn fixed_bytes(t: Totals, count: u32, flagged: bool) -> Seq<u8>
    decreases count,
{
    if count == 0 {
        Seq::empty()
    } else {
        groups_bytes(groups_for(t, count), flagged) + fixed_bytes(t, (count - 1) as u32, flagged)
    }
}

/// Inserts `x` into a strictly descending list unless it is there.
pub open spec fn insert_desc(s: Seq<u32>, x: u32) -> Seq<u32>
    decreases s.len(),
{
    if s.len() == 0 {
        seq![x]
    } else if s[0] == x {
        s
    } else if x > s[0] {
        seq![x] + s
    } else {
        seq![s[0]] + insert_desc(s.drop_first(), x)
    }
}

/// The distinct copy counts of the totals, largest first.
pub open spec fn counts_desc(t: Totals) -> Seq<u32>
    decreases t.len(),
{
    if t.len() == 0 {
        Seq::empty()
    } else {
        insert_desc(counts_desc(t.drop_last()), t.last().1)
    }
}

pub open spec fn sparse_blocks(t: Totals, counts: Seq<u32>, flagged: bool) -> Seq<u8>
    decreases counts.len(),
{
    if counts.len() == 0 {
        Seq::empty()
    } else {
        sparse_blocks(t, counts.drop_last(), flagged) + varint_bytes(counts.last()) + groups_bytes(
            groups_for(t, counts.last()),
            flagged,
        )
    }
}

/// The sparse layout: how many counts, then for each count, largest first,
/// the count and its block.
pub open spec fn sparse_bytes(t: Totals, flagged: bool) -> Seq<u8> {
    let counts = counts_desc(t);
    varint_bytes(counts.len() as u32) + sparse_blocks(t, counts, flagged)
}


// ---------------------------------------------------------------------------
// Encoding
// ---------------------------------------------------------------------------

pub proof fn lemma_held_ge(t: Totals, j: int, code: CardCode)
    requires
        0 <= j < t.len(),
        t[j].0 == code,
    ensures
        t[j].1 <= held(t, code),
    decreases t.len(),
{
    if j > 0 {
        lemma_held_ge(t.drop_first(), j - 1, code);
    }
}

proof fn lemma_add_copies_split(t: Totals, j: int, code: CardCode, count: u32)
    requires
        0 <= j < t.len(),
        t[j].0 != code,
        code_key(code) >= code_key(t[j].0),
    ensures
        add_copies(t.skip(j), code, count) == seq![t[j]] + add_copies(t.skip(j + 1), code, count),
{
    assert(t.skip(j)[0] == t[j]);
    assert(t.skip(j).drop_first() =~= t.skip(j + 1));
}

fn add_copies_to(totals: &mut Vec<(CardCode, u32)>, code: CardCode, count: u32)
    requires
        held(old(totals)@, code) + count <= u32::MAX,
    ensures
        final(totals)@ == add_copies(old(totals)@, code, count),
{
    let ghost t = totals@;
    let key = key_of(code);
    let mut j: usize = 0;
    assert(t.skip(0) =~= t);
    assert(t.take(0) + add_copies(t.skip(0), code, count) =~= add_copies(t, code, count));
    while j < totals.len()
        invariant
            t == totals@,
            t == old(totals)@,
            j <= t.len(),
            key == code_key(code),
            add_copies(t, code, count) == t.take(j as int) + add_copies(t.skip(j as int), code, count),
            held(t, code) + count <= u32::MAX,
        decreases t.len() - j,
    {
        let (held_code, held_count) = totals[j];
        if held_code == code {
            proof {
                lemma_held_ge(t, j as int, code);
            }
            assert(t.skip(j as int)[0] == t[j as int]);
            assert(t.skip(j as int).drop_first() =~= t.skip(j as int + 1));
            totals.set(j, (code, held_count + count));
            assert(totals@ =~= t.take(j as int) + (seq![(code, (held_count + count) as u32)] + t.skip(j as int + 1)));
            return;
        }
        if key < key_of(held_code) {
            assert(t.skip(j as int)[0] == t[j as int]);
            totals.insert(j, (code, count));
            assert(totals@ =~= t.take(j as int) + (seq![(code, count)] + t.skip(j as int)));
            return;
        }
        proof {
            lemma_add_copies_split(t, j as int, code, count);
            assert(t.take(j as int) + seq![t[j as int]] =~= t.take(j as int + 1));
            assert(t.take(j as int) + (seq![t[j as int]] + add_copies(t.skip(j as int + 1), code, count))
                =~= t.take(j as int + 1) + add_copies(t.skip(j as int + 1), code, count));
        }
        j = j + 1;
    }
    assert(t.skip(j as int) =~= Seq::<(CardCode, u32)>::empty());
    totals.push((code, count));
    assert(totals@ =~= t.take(j as int) + seq![(code, count)]);
}

/// Sums the entries' copies per code, in code order; an entry with no
/// copies is refused.
fn aggregate(entries: &[CodeEntry]) -> (r: Result<Vec<(CardCode, u32)>, DeckCodeError>)
    requires
        forall|x: CardCode| copies_of(entries@, x) <= u32::MAX,
    ensures
        match aggregate_spec(entries@) {
            Ok(t) => r matches Ok(v) && v@ == t,
            Err(e) => r matches Err(DeckCodeError::BadCount(s, n)) && s@ == crate::riftbound::card_code::code_text(e.code) && n == e.count,
        },
{
    let mut totals: Vec<(CardCode, u32)> = Vec::new();
    let mut i: usize = 0;
    while i < entries.len()
        invariant
            i <= entries@.len(),
            aggregate_spec(entries@.take(i as int)) == Ok::<Totals, CodeEntry>(totals@),
            forall|x: CardCode| copies_of(entries@, x) <= u32::MAX,
        decreases entries@.len() - i,
    {
        let e = entries[i];
        let ghost pre = entries@.take(i as int);
        assert(entries@.take(i as int + 1).drop_last() =~= pre);
        if e.count == 0 {
            proof {
                lemma_aggregate_err_sticks(entries@, i as int + 1);
            }
            return Err(DeckCodeError::BadCount(e.code.to_text(), e.count));
        }
        proof {
            lemma_copies_prefix(entries@, i as int + 1, e.code);
            assert forall|x: CardCode| copies_of(pre, x) <= u32::MAX by {
                lemma_copies_prefix(entries@, i as int, x);
            }
            lemma_aggregate_held(pre, e.code);
            assert(copies_of(entries@.take(i as int + 1), e.code) == copies_of(pre, e.code) + e.count);
        }
        add_copies_to(&mut totals, e.code, e.count);
        i = i + 1;
    }
    assert(entries@.take(i as int) =~= entries@);
    Ok(totals)
}

proof fn lemma_copies_prefix(entries: Seq<CodeEntry>, k: int, x: CardCode)
    requires
        0 <= k <= entries.len(),
    ensures
        copies_of(entries.take(k), x) <= copies_of(entries, x),
    decreases entries.len() - k,
{
    if k < entries.len() {
        assert(entries.take(k + 1).drop_last() =~= entries.take(k));
        lemma_copies_prefix(entries, k + 1, x);
    } else {
        assert(entries.take(k) =~= entries);
    }
}

proof fn lemma_aggregate_err_sticks(entries: Seq<CodeEntry>, k: int)
    requires
        0 <= k <= entries.len(),
        aggregate_spec(entries.take(k)) is Err,
    ensures
        aggregate_spec(entries) == aggregate_spec(entries.take(k)),
    decreases entries.len() - k,
{
    if k < entries.len() {
        assert(entries.take(k + 1).drop_last() =~= entries.take(k));
        lemma_aggregate_err_sticks(entries, k + 1);
    } else {
        assert(entries.take(k) =~= entries);
    }
}

fn insert_count(counts: &mut Vec<u32>, x: u32)
    ensures
        final(counts)@ == insert_desc(old(counts)@, x),
{
    let ghost s = counts@;
    let mut j: usize = 0;
    assert(s.skip(0) =~= s);
    assert(s.take(0) + insert_desc(s.skip(0), x) =~= insert_desc(s, x));
    while j < counts.len()
        invariant
            s == counts@,
            s == old(counts)@,
            j <= s.len(),
            insert_desc(s, x) == s.take(j as int) + insert_desc(s.skip(j as int), x),
        decreases s.len() - j,
    {
        let c = counts[j];
        assert(s.skip(j as int)[0] == s[j as int]);
        assert(s.skip(j as int).drop_first() =~= s.skip(j as int + 1));
        if c == x {
            assert(s.take(j as int) + s.skip(j as int) =~= s);
            return;
        }
        if x > c {
            counts.insert(j, x);
            assert(counts@ =~= s.take(j as int) + (seq![x] + s.skip(j as int)));
            return;
        }
        assert(s.take(j as int) + (seq![s[j as int]] + insert_desc(s.skip(j as int + 1), x))
            =~= s.take(j as int + 1) + insert_desc(s.skip(j as int + 1), x));
        j = j + 1;
    }
    assert(s.skip(j as int) =~= Seq::<u32>::empty());
    counts.push(x);
    assert(counts@ =~= s.take(j as int) + seq![x]);
}

fn distinct_counts(totals: &[(CardCode, u32)]) -> (r: Vec<u32>)
    ensures
        r@ == counts_desc(totals@),
{
    let mut counts: Vec<u32> = Vec::new();
    let mut i: usize = 0;
    while i < totals.len()
        invariant
            i <= totals@.len(),
            counts@ == counts_desc(totals@.take(i as int)),
        decreases totals@.len() - i,
    {
        assert(totals@.take(i as int + 1).drop_last() =~= totals@.take(i as int));
        insert_count(&mut counts, totals[i].1);
        i = i + 1;
    }
    assert(totals@.take(i as int) =~= totals@);
    counts
}

fn numbers_of(totals: &[(CardCode, u32)], set: SetCode, variant: Variant, count: u32) -> (r: Vec<CardNumber>)
    ensures
        r@ == numbers_in(totals@, set, variant, count),
{
    let mut nums: Vec<CardNumber> = Vec::new();
    let mut i: usize = 0;
    while i < totals.len()
        invariant
            i <= totals@.len(),
            nums@ == numbers_in(totals@.take(i as int), set, variant, count),
        decreases totals@.len() - i,
    {
        let (code, total) = totals[i];
        assert(totals@.take(i as int + 1).drop_last() =~= totals@.take(i as int));
        if code.set == set && code.variant == variant && total == count {
            nums.push(code.number);
        }
        i = i + 1;
    }
    assert(totals@.take(i as int) =~= totals@);
    nums
}

fn set_number(k: u32) -> (s: SetCode)
    ensures
        s == set_at(k as int),
{
    match k {
        0 => SetCode::Ogn,
        1 => SetCode::Ogs,
        2 => SetCode::Arc,
        3 => SetCode::Sfd,
        4 => SetCode::Unl,
        5 => SetCode::Ven,
        6 => SetCode::Rad,
        7 => SetCode::Opp,
        8 => SetCode::Pr,
        _ => SetCode::Jdg,
    }
}

fn variant_number(k: u32) -> (v: Variant)
    ensures
        v == variant_at(k as int),
{
    match k {
        0 => Variant::Base,
        1 => Variant::Alternate,
        2 => Variant::Signed,
        _ => Variant::B,
    }
}

pub open spec fn group_views(g: Seq<((SetCode, Variant), Vec<CardNumber>)>) -> Seq<Group> {
    g.map_values(|x: ((SetCode, Variant), Vec<CardNumber>)| (x.0, x.1@))
}

fn groups_for_count(totals: &[(CardCode, u32)], count: u32) -> (r: Vec<((SetCode, Variant), Vec<CardNumber>)>)
    ensures
        group_views(r@) == groups_for(totals@, count),
{
    let mut groups: Vec<((SetCode, Variant), Vec<CardNumber>)> = Vec::new();
    let mut k: u32 = 0;
    while k < 40
        invariant
            k <= 40,
            group_views(groups@) + groups_from(totals@, count, k as int) == groups_for(totals@, count),
        decreases 40 - k,
    {
        let set = set_number(k / 4);
        let variant = variant_number(k % 4);
        let nums = numbers_of(totals, set, variant, count);
        let ghost before = group_views(groups@);
        if nums.len() > 0 {
            groups.push(((set, variant), nums));
            assert(group_views(groups@) =~= before.push(((set, variant), numbers_in(totals@, set, variant, count))));
        }
        assert(groups_from(totals@, count, k as int) =~= (if numbers_in(totals@, set, variant, count).len() > 0 {
            seq![((set, variant), numbers_in(totals@, set, variant, count))]
        } else {
            Seq::empty()
        }) + groups_from(totals@, count, k as int + 1));
        k = k + 1;
        assert(group_views(groups@) + groups_from(totals@, count, k as int) =~= groups_for(totals@, count));
    }
    assert(groups_from(totals@, count, 40) =~= Seq::<Group>::empty());
    assert(group_views(groups@) =~= groups_for(totals@, count));
    groups
}

/// Every number in the totals is a plain number.
pub open spec fn all_normal(t: Totals) -> bool {
    forall|i: int| 0 <= i < t.len() ==> (#[trigger] t[i]).0.number is Normal
}

pub proof fn lemma_numbers_in_normal(t: Totals, set: SetCode, variant: Variant, count: u32)
    requires
        all_normal(t),
    ensures
        forall|i: int| 0 <= i < numbers_in(t, set, variant, count).len() ==> (#[trigger] numbers_in(t, set, variant, count)[i]) is Normal,
    decreases t.len(),
{
    if t.len() > 0 {
        assert(all_normal(t.drop_last())) by {
            assert forall|i: int| 0 <= i < t.drop_last().len() implies (#[trigger] t.drop_last()[i]).0.number is Normal by {
                assert(t.drop_last()[i] == t[i]);
            }
        }
        lemma_numbers_in_normal(t.drop_last(), set, variant, count);
        assert(t.last() == t[t.len() - 1]);
    }
}

/// Every number in the groups is a plain number.
pub open spec fn groups_normal(g: Seq<Group>) -> bool {
    forall|x: int, j: int| 0 <= x < g.len() && 0 <= j < g[x].1.len() ==> (#[trigger] g[x].1[j]) is Normal
}

proof fn lemma_groups_normal(t: Totals, count: u32, k: int)
    requires
        all_normal(t),
    ensures
        groups_normal(groups_from(t, count, k)),
    decreases 40 - k,
{
    if 0 <= k < 40 {
        let set = set_at(k / 4);
        let variant = variant_at(k % 4);
        lemma_numbers_in_normal(t, set, variant, count);
        lemma_groups_normal(t, count, k + 1);
        let nums = numbers_in(t, set, variant, count);
        let rest = groups_from(t, count, k + 1);
        let here: Seq<Group> = if nums.len() > 0 {
            seq![((set, variant), nums)]
        } else {
            Seq::empty()
        };
        let all = here + rest;
        assert(groups_from(t, count, k) == all);
        assert forall|g: int, i: int| 0 <= g < all.len() && 0 <= i < all[g].1.len() implies (#[trigger] all[g].1[i]) is Normal by {
            if g < here.len() {
                assert(all[g] == here[g]);
                assert(here[g].1 == nums);
                assert(nums[i] is Normal);
            } else {
                assert(all[g] == rest[g - here.len()]);
                assert(rest[g - here.len()].1[i] is Normal);
            }
        }
    }
}

fn push_groups(bytes: &mut Vec<u8>, groups: &Vec<((SetCode, Variant), Vec<CardNumber>)>, flagged: bool)
    requires
        flagged || groups_normal(group_views(groups@)),
    ensures
        final(bytes)@ == old(bytes)@ + groups_bytes(group_views(groups@), flagged),
{
    let ghost gv = group_views(groups@);
    push_varint(bytes, groups.len() as u32);
    let ghost start = bytes@;
    let mut g: usize = 0;
    while g < groups.len()
        invariant
            g <= groups@.len(),
            gv == group_views(groups@),
            flagged || groups_normal(gv),
            gv.len() == groups@.len(),
            bytes@ == start + group_list_bytes(gv.take(g as int), flagged),
        decreases groups@.len() - g,
    {
        let ghost before = bytes@;
        let (key, nums) = &groups[g];
        let (set, variant) = *key;
        push_varint(bytes, nums.len() as u32);
        bytes.push(set.to_wire());
        bytes.push(variant.to_wire());
        let ghost mid = bytes@;
        assert(gv[g as int] == (*key, nums@));
        let mut i: usize = 0;
        while i < nums.len()
            invariant
                i <= nums@.len(),
                nums@ == groups@[g as int].1@,
                g < groups@.len(),
                flagged || groups_normal(gv),
                gv[g as int].1 == nums@,
                gv.len() == groups@.len(),
                bytes@ == mid + numbers_bytes(nums@.take(i as int), flagged),
            decreases nums@.len() - i,
        {
            assert(nums@.take(i as int + 1).drop_last() =~= nums@.take(i as int));
            assert(flagged || gv[g as int].1[i as int] is Normal);
            push_number(bytes, nums[i], flagged);
            i = i + 1;
            assert(bytes@ =~= mid + numbers_bytes(nums@.take(i as int), flagged));
        }
        assert(nums@.take(i as int) =~= nums@);
        assert(gv.take(g as int + 1).drop_last() =~= gv.take(g as int));
        assert(gv[g as int] == (*key, nums@));
        g = g + 1;
        assert(bytes@ =~= start + group_list_bytes(gv.take(g as int), flagged));
    }
    assert(gv.take(g as int) =~= gv);
    assert(gv.len() == groups@.len());
}


/// Why a deck does not encode, as plain values.
pub enum EncodeFault {
    BadVersion(u8),
    BadCount(CodeEntry),
    NeedsNewerVersion(u8, Seq<char>),
}

impl DeckCodeError {
    /// Whether this error is the encoding failure `f`.
    pub open spec fn is_encode_fault(&self, f: EncodeFault) -> bool {
        match (self, f) {
            (DeckCodeError::BadVersion(a), EncodeFault::BadVersion(b)) => a == b,
            (DeckCodeError::BadCount(s, n), EncodeFault::BadCount(e)) => s@ == crate::riftbound::card_code::code_text(e.code) && n == e.count,
            (DeckCodeError::NeedsNewerVersion(v, why), EncodeFault::NeedsNewerVersion(w, r)) => v == w && why@ == r,
            _ => false,
        }
    }
}

pub open spec fn any_prefixed(t: Totals) -> bool {
    exists|i: int| 0 <= i < t.len() && !((#[trigger] t[i]).0.number is Normal)
}

pub open spec fn any_special(t: Totals) -> bool {
    exists|i: int| 0 <= i < t.len() && (#[trigger] t[i]).0.number is Special
}

pub open spec fn any_rune(t: Totals) -> bool {
    exists|i: int| 0 <= i < t.len() && (#[trigger] t[i]).0.number is Rune
}

pub open spec fn any_over(t: Totals, ceiling: u32) -> bool {
    exists|i: int| 0 <= i < t.len() && (#[trigger] t[i]).1 > ceiling
}

pub open spec fn champion_is(champion: Option<CardCode>, pred: spec_fn(CardNumber) -> bool) -> bool {
    match champion {
        Some(c) => pred(c.number),
        None => false,
    }
}

pub open spec fn champion_prefixed(champion: Option<CardCode>) -> bool {
    champion_is(champion, |n: CardNumber| !(n is Normal))
}

pub open spec fn champion_special(champion: Option<CardCode>) -> bool {
    champion_is(champion, |n: CardNumber| n is Special)
}

pub open spec fn champion_rune(champion: Option<CardCode>) -> bool {
    champion_is(champion, |n: CardNumber| n is Rune)
}

pub open spec fn champion_bytes(champion: Option<CardCode>, flagged: bool) -> Seq<u8> {
    match champion {
        Some(c) => seq![
            1u8,
            match spec_wire(c.set) {
                Some(w) => w,
                None => 255u8,
            },
            variant_wire(c.variant),
        ] + number_bytes(c.number, flagged),
        None => seq![0u8],
    }
}

/// Whether a version `version` code marks each card number with its kind.
pub open spec fn deck_flagged(version: u8, m: Totals, s: Totals, champion: Option<CardCode>) -> bool {
    if version >= 5 {
        any_prefixed(m) || any_prefixed(s) || champion_prefixed(champion)
    } else {
        version >= 4
    }
}

/// The main and sideboard sections of a version `version` code.
pub open spec fn sections_bytes(version: u8, m: Totals, s: Totals, flagged: bool) -> Seq<u8> {
    if version >= 5 {
        seq![if flagged { 1u8 } else { 0u8 }] + sparse_bytes(m, flagged) + sparse_bytes(s, flagged)
    } else {
        fixed_bytes(m, MAIN_COUNT_CEILING, flagged) + if version >= 2 {
            fixed_bytes(s, SIDE_COUNT_CEILING, flagged)
        } else {
            Seq::empty()
        }
    }
}

/// The bytes of a version `version` code for the given totals.
pub open spec fn code_bytes(version: u8, m: Totals, s: Totals, champion: Option<CardCode>) -> Seq<u8> {
    let flagged = deck_flagged(version, m, s, champion);
    let champ = if version >= 3 {
        champion_bytes(champion, flagged)
    } else {
        Seq::empty()
    };
    seq![((FORMAT << 4u8) | version) as u8] + sections_bytes(version, m, s, flagged) + champ
}

/// What `encode_as(version, deck)` gives: the code's bytes, or why not.
pub open spec fn encode_as_spec(version: u8, d: DeckSpec) -> Result<Seq<u8>, EncodeFault> {
    if version == 0 || version > MAX_VERSION {
        Err(EncodeFault::BadVersion(version))
    } else {
        match aggregate_spec(d.0) {
            Err(e) => Err(EncodeFault::BadCount(e)),
            Ok(m) => match aggregate_spec(d.1) {
                Err(e) => Err(EncodeFault::BadCount(e)),
                Ok(s) => {
                    let champion = d.2;
                    if version < 2 && s.len() > 0 {
                        Err(EncodeFault::NeedsNewerVersion(version, "v1 has no sideboard section"@))
                    } else if version < 3 && champion is Some {
                        Err(EncodeFault::NeedsNewerVersion(version, "chosen champion needs v3"@))
                    } else if version < 4 && (any_prefixed(m) || any_prefixed(s) || champion_prefixed(champion)) {
                        Err(EncodeFault::NeedsNewerVersion(version, "R numbered cards need v4 and SP numbered cards need v5"@))
                    } else if version < 5 && (any_special(m) || any_special(s) || champion_special(champion)) {
                        Err(EncodeFault::NeedsNewerVersion(version, "SP numbered cards need v5"@))
                    } else if version < 5 && (any_over(m, MAIN_COUNT_CEILING) || any_over(s, SIDE_COUNT_CEILING)) {
                        Err(EncodeFault::NeedsNewerVersion(version, "copy counts past the fixed ceilings need v5"@))
                    } else {
                        Ok(code_bytes(version, m, s, champion))
                    }
                },
            },
        }
    }
}

/// The version `encode` picks: 5 past the fixed ceilings or with an SP
/// number, else 4 with an R number, else 3.
pub open spec fn auto_version(m: Totals, s: Totals, champion: Option<CardCode>) -> u8 {
    if any_over(m, MAIN_COUNT_CEILING) || any_over(s, SIDE_COUNT_CEILING) || any_special(m)
        || any_special(s) || champion_special(champion) {
        5
    } else if any_rune(m) || any_rune(s) || champion_rune(champion) {
        4
    } else {
        3
    }
}

pub open spec fn encode_spec(d: DeckSpec) -> Result<Seq<u8>, EncodeFault> {
    match aggregate_spec(d.0) {
        Err(e) => Err(EncodeFault::BadCount(e)),
        Ok(m) => match aggregate_spec(d.1) {
            Err(e) => Err(EncodeFault::BadCount(e)),
            Ok(s) => encode_as_spec(auto_version(m, s, d.2), d),
        },
    }
}

/// `encode` picks the least version from 3 up that takes the deck: every
/// version from 3 below the one it picks refuses the deck, and what
/// `encode` gives is what that version gives.
pub proof fn lemma_encode_picks_least_version(d: DeckSpec)
    ensures
        match (aggregate_spec(d.0), aggregate_spec(d.1)) {
            (Ok(m), Ok(s)) => {
                &&& 3 <= auto_version(m, s, d.2) <= 5
                &&& encode_spec(d) == encode_as_spec(auto_version(m, s, d.2), d)
                &&& encode_spec(d) is Ok
                &&& forall|v: u8| 3 <= v < auto_version(m, s, d.2) ==> #[trigger] encode_as_spec(v, d) is Err
            },
            _ => encode_spec(d) is Err,
        },
{
    match (aggregate_spec(d.0), aggregate_spec(d.1)) {
        (Ok(m), Ok(s)) => {
            let a = auto_version(m, s, d.2);
            if any_prefixed(m) && !any_special(m) {
                let i = choose|i: int| 0 <= i < m.len() && !((#[trigger] m[i]).0.number is Normal);
                assert(m[i].0.number is Rune);
            }
            if any_prefixed(s) && !any_special(s) {
                let i = choose|i: int| 0 <= i < s.len() && !((#[trigger] s[i]).0.number is Normal);
                assert(s[i].0.number is Rune);
            }
            if any_rune(m) {
                let i = choose|i: int| 0 <= i < m.len() && (#[trigger] m[i]).0.number is Rune;
                assert(!(m[i].0.number is Normal));
            }
            if any_rune(s) {
                let i = choose|i: int| 0 <= i < s.len() && (#[trigger] s[i]).0.number is Rune;
                assert(!(s[i].0.number is Normal));
            }
            if any_special(m) {
                let i = choose|i: int| 0 <= i < m.len() && (#[trigger] m[i]).0.number is Special;
                assert(!(m[i].0.number is Normal));
            }
            if any_special(s) {
                let i = choose|i: int| 0 <= i < s.len() && (#[trigger] s[i]).0.number is Special;
                assert(!(s[i].0.number is Normal));
            }
        },
        _ => {},
    }
}

/// No entry asks for more copies of a card than a `u32` holds.
pub open spec fn counts_fit(entries: Seq<CodeEntry>) -> bool {
    forall|x: CardCode| copies_of(entries, x) <= u32::MAX
}

fn is_prefixed(number: CardNumber) -> (r: bool)
    ensures
        r == !(number is Normal),
{
    match number {
        CardNumber::Normal(_) => false,
        _ => true,
    }
}

fn is_special(number: CardNumber) -> (r: bool)
    ensures
        r == number is Special,
{
    match number {
        CardNumber::Special(_) => true,
        _ => false,
    }
}

fn is_rune(number: CardNumber) -> (r: bool)
    ensures
        r == number is Rune,
{
    match number {
        CardNumber::Rune(_) => true,
        _ => false,
    }
}

spec fn hits(entry: (CardCode, u32), what: u8, ceiling: u32) -> bool {
    if what == 0 {
        !(entry.0.number is Normal)
    } else if what == 1 {
        entry.0.number is Special
    } else if what == 2 {
        entry.0.number is Rune
    } else {
        entry.1 > ceiling
    }
}

fn check_any(t: &[(CardCode, u32)], what: u8, ceiling: u32) -> (r: bool)
    requires
        what <= 3,
    ensures
        what == 0 ==> r == any_prefixed(t@),
        what == 1 ==> r == any_special(t@),
        what == 2 ==> r == any_rune(t@),
        what == 3 ==> r == any_over(t@, ceiling),
{
    let mut i: usize = 0;
    while i < t.len()
        invariant
            i <= t@.len(),
            what <= 3,
            forall|j: int| #![trigger t@[j]] 0 <= j < i ==> !hits(t@[j], what, ceiling),
        decreases t@.len() - i,
    {
        let (code, total) = t[i];
        let hit = match what {
            0 => is_prefixed(code.number),
            1 => is_special(code.number),
            2 => is_rune(code.number),
            _ => total > ceiling,
        };
        if hit {
            return true;
        }
        i = i + 1;
    }
    false
}

fn push_fixed_section(bytes: &mut Vec<u8>, totals: &[(CardCode, u32)], ceiling: u32, flagged: bool)
    requires
        flagged || all_normal(totals@),
    ensures
        final(bytes)@ == old(bytes)@ + fixed_bytes(totals@, ceiling, flagged),
{
    let mut count: u32 = ceiling;
    while count > 0
        invariant
            flagged || all_normal(totals@),
            old(bytes)@ + fixed_bytes(totals@, ceiling, flagged) == bytes@ + fixed_bytes(totals@, count, flagged),
        decreases count,
    {
        let groups = groups_for_count(totals, count);
        proof {
            if !flagged {
                lemma_groups_normal(totals@, count, 0);
            }
        }
        let ghost before = bytes@;
        push_groups(bytes, &groups, flagged);
        assert(bytes@ + fixed_bytes(totals@, (count - 1) as u32, flagged) =~= before + fixed_bytes(totals@, count, flagged));
        count = count - 1;
    }
    assert(bytes@ + fixed_bytes(totals@, 0, flagged) =~= bytes@);
}

fn push_sparse_section(bytes: &mut Vec<u8>, totals: &[(CardCode, u32)], flagged: bool)
    requires
        flagged || all_normal(totals@),
    ensures
        final(bytes)@ == old(bytes)@ + sparse_bytes(totals@, flagged),
{
    let counts = distinct_counts(totals);
    push_varint(bytes, counts.len() as u32);
    let ghost start = bytes@;
    let mut i: usize = 0;
    while i < counts.len()
        invariant
            i <= counts@.len(),
            flagged || all_normal(totals@),
            counts@ == counts_desc(totals@),
            bytes@ == start + sparse_blocks(totals@, counts@.take(i as int), flagged),
        decreases counts@.len() - i,
    {
        let count = counts[i];
        let ghost before = bytes@;
        push_varint(bytes, count);
        let groups = groups_for_count(totals, count);
        proof {
            if !flagged {
                lemma_groups_normal(totals@, count, 0);
            }
        }
        push_groups(bytes, &groups, flagged);
        assert(counts@.take(i as int + 1).drop_last() =~= counts@.take(i as int));
        i = i + 1;
        assert(bytes@ =~= start + sparse_blocks(totals@, counts@.take(i as int), flagged));
    }
    assert(counts@.take(i as int) =~= counts@);
    assert(bytes@ =~= old(bytes)@ + sparse_bytes(totals@, flagged));
}

fn refuse(version: u8, why: &str) -> (e: DeckCodeError)
    ensures
        e.is_encode_fault(EncodeFault::NeedsNewerVersion(version, why@)),
{
    DeckCodeError::NeedsNewerVersion(version, why.to_owned())
}

pub proof fn lemma_normal_when_unprefixed(t: Totals)
    requires
        !any_prefixed(t),
    ensures
        all_normal(t),
{
    assert forall|i: int| 0 <= i < t.len() implies (#[trigger] t[i]).0.number is Normal by {
        if !(t[i].0.number is Normal) {
            assert(!((t[i]).0.number is Normal));
        }
    }
}

fn push_sections(
    bytes: &mut Vec<u8>,
    version: u8,
    main: &[(CardCode, u32)],
    sideboard: &[(CardCode, u32)],
    flagged: bool,
)
    requires
        flagged || (all_normal(main@) && all_normal(sideboard@)),
    ensures
        final(bytes)@ == old(bytes)@ + sections_bytes(version, main@, sideboard@, flagged),
{
    if version >= 5 {
        bytes.push(if flagged { 1 } else { 0 });
        push_sparse_section(bytes, main, flagged);
        push_sparse_section(bytes, sideboard, flagged);
    } else {
        push_fixed_section(bytes, main, MAIN_COUNT_CEILING, flagged);
        if version >= 2 {
            push_fixed_section(bytes, sideboard, SIDE_COUNT_CEILING, flagged);
        }
    }
    assert(final(bytes)@ =~= old(bytes)@ + sections_bytes(version, main@, sideboard@, flagged));
}

fn push_champion(bytes: &mut Vec<u8>, champion: Option<CardCode>, flagged: bool)
    requires
        flagged || !champion_prefixed(champion),
    ensures
        final(bytes)@ == old(bytes)@ + champion_bytes(champion, flagged),
{
    match champion {
        Some(code) => {
            bytes.push(1);
            bytes.push(code.set.to_wire());
            bytes.push(code.variant.to_wire());
            push_number(bytes, code.number, flagged);
        },
        None => bytes.push(0),
    }
    assert(final(bytes)@ =~= old(bytes)@ + champion_bytes(champion, flagged));
}

fn code_bytes_of(
    version: u8,
    main: &[(CardCode, u32)],
    sideboard: &[(CardCode, u32)],
    champion: Option<CardCode>,
    flagged: bool,
) -> (bytes: Vec<u8>)
    requires
        1 <= version <= MAX_VERSION,
        flagged == deck_flagged(version, main@, sideboard@, champion),
        flagged || (all_normal(main@) && all_normal(sideboard@) && !champion_prefixed(champion)),
    ensures
        bytes@ == code_bytes(version, main@, sideboard@, champion),
{
    let mut bytes: Vec<u8> = Vec::new();
    bytes.push((FORMAT << 4) | version);
    push_sections(&mut bytes, version, main, sideboard, flagged);
    if version >= 3 {
        push_champion(&mut bytes, champion, flagged);
    }
    assert(bytes@ =~= code_bytes(version, main@, sideboard@, champion));
    bytes
}

/// Writes a deck as a version `version` code.
pub fn encode_as(version: u8, deck: &DecodedDeck) -> (r: Result<String, DeckCodeError>)
    requires
        counts_fit(deck.main@),
        counts_fit(deck.sideboard@),
    ensures
        match encode_as_spec(version, deck.spec()) {
            Ok(b) => r matches Ok(s) && s@ == base32(b),
            Err(f) => r matches Err(e) && e.is_encode_fault(f),
        },
{
    if version == 0 || version > MAX_VERSION {
        return Err(DeckCodeError::BadVersion(version));
    }
    let main = aggregate(deck.main.as_slice())?;
    let sideboard = aggregate(deck.sideboard.as_slice())?;
    if version < 2 && sideboard.len() > 0 {
        return Err(refuse(version, "v1 has no sideboard section"));
    }
    if version < 3 && deck.champion.is_some() {
        return Err(refuse(version, "chosen champion needs v3"));
    }
    let champion_prefixed = match deck.champion {
        Some(c) => is_prefixed(c.number),
        None => false,
    };
    let any_prefixed = check_any(main.as_slice(), 0, 0) || check_any(sideboard.as_slice(), 0, 0) || champion_prefixed;
    let champion_special = match deck.champion {
        Some(c) => is_special(c.number),
        None => false,
    };
    let any_special = check_any(main.as_slice(), 1, 0) || check_any(sideboard.as_slice(), 1, 0) || champion_special;
    if version < 4 && any_prefixed {
        return Err(refuse(version, "R numbered cards need v4 and SP numbered cards need v5"));
    }
    if version < 5 && any_special {
        return Err(refuse(version, "SP numbered cards need v5"));
    }
    if version < 5 && (check_any(main.as_slice(), 3, MAIN_COUNT_CEILING) || check_any(sideboard.as_slice(), 3, SIDE_COUNT_CEILING)) {
        return Err(refuse(version, "copy counts past the fixed ceilings need v5"));
    }
    let flagged = if version >= 5 {
        any_prefixed
    } else {
        version >= 4
    };
    proof {
        if !flagged {
            lemma_normal_when_unprefixed(main@);
            lemma_normal_when_unprefixed(sideboard@);
        }
    }
    let bytes = code_bytes_of(version, main.as_slice(), sideboard.as_slice(), deck.champion, flagged);
    Ok(base32_encode(bytes.as_slice()))
}

/// Writes a deck in the smallest version from 3 up that carries it.
pub fn encode(deck: &DecodedDeck) -> (r: Result<String, DeckCodeError>)
    requires
        counts_fit(deck.main@),
        counts_fit(deck.sideboard@),
    ensures
        match encode_spec(deck.spec()) {
            Ok(b) => r matches Ok(s) && s@ == base32(b),
            Err(f) => r matches Err(e) && e.is_encode_fault(f),
        },
{
    let main = aggregate(deck.main.as_slice())?;
    let sideboard = aggregate(deck.sideboard.as_slice())?;
    let champion_rune = match deck.champion {
        Some(c) => is_rune(c.number),
        None => false,
    };
    let champion_special = match deck.champion {
        Some(c) => is_special(c.number),
        None => false,
    };
    let needs_v4 = check_any(main.as_slice(), 2, 0) || check_any(sideboard.as_slice(), 2, 0) || champion_rune;
    let any_special = check_any(main.as_slice(), 1, 0) || check_any(sideboard.as_slice(), 1, 0) || champion_special;
    let over_ceiling = check_any(main.as_slice(), 3, MAIN_COUNT_CEILING) || check_any(sideboard.as_slice(), 3, SIDE_COUNT_CEILING);
    let version: u8 = if over_ceiling || any_special {
        5
    } else if needs_v4 {
        4
    } else {
        3
    };
    encode_as(version, deck)
}

/// The version `encode` picks is the smallest from 3 up that `encode_as`
/// accepts.
pub proof fn lemma_auto_version_is_smallest(d: DeckSpec, v: u8)
    requires
        encode_spec(d) is Ok,
        3 <= v,
        aggregate_spec(d.0) is Ok,
        aggregate_spec(d.1) is Ok,
        v < auto_version(aggregate_spec(d.0)->Ok_0, aggregate_spec(d.1)->Ok_0, d.2),
    ensures
        encode_as_spec(v, d) is Err,
{
    let m = aggregate_spec(d.0)->Ok_0;
    let s = aggregate_spec(d.1)->Ok_0;
    if any_rune(m) {
        let i = choose|i: int| 0 <= i < m.len() && (#[trigger] m[i]).0.number is Rune;
        assert(!(m[i].0.number is Normal));
    }
    if any_rune(s) {
        let i = choose|i: int| 0 <= i < s.len() && (#[trigger] s[i]).0.number is Rune;
        assert(!(s[i].0.number is Normal));
    }
    if any_special(m) {
        let i = choose|i: int| 0 <= i < m.len() && (#[trigger] m[i]).0.number is Special;
        assert(!(m[i].0.number is Normal));
    }
    if any_special(s) {
        let i = choose|i: int| 0 <= i < s.len() && (#[trigger] s[i]).0.number is Special;
        assert(!(s[i].0.number is Normal));
    }
}

/// Why a catalog id has no code a deck code can carry: it is not a card
/// code, or its print's set has no wire number and no base print to fold
/// to.
pub open spec fn unencodable_message(c: CardCode) -> Seq<char> {
    code_text(c) + " is a "@ + crate::riftbound::card_code::set_name(c.set)
        + " print with no Piltover Archive set number and no base print to fold to"@
}

/// The code a deck code carries for a catalog id: its base print, when
/// that print's set has a wire number.
pub open spec fn encodable_spec(id: Seq<char>) -> Result<CardCode, Seq<char>> {
    match base_print_of_id_spec(id) {
        Err(input) => Err(card_code_error_message(input)),
        Ok(c) => if spec_wire(c.set) is Some {
            Ok(c)
        } else {
            Err(unencodable_message(c))
        },
    }
}

/// The code a deck code carries for a catalog id, or why there is none.
pub fn encodable(riftbound_id: &str) -> (r: Result<CardCode, String>)
    ensures
        match encodable_spec(riftbound_id@) {
            Ok(c) => r == Ok::<CardCode, String>(c),
            Err(m) => r matches Err(e) && e@ == m,
        },
{
    let code = match CardCode::base_print_of_id(riftbound_id) {
        Ok(c) => c,
        Err(e) => {
            return Err(e.message());
        },
    };
    if code.set.wire().is_none() {
        let mut out = code.text_chars();
        extend(&mut out, chars_of(" is a ").as_slice());
        extend(&mut out, chars_of(code.set.as_str()).as_slice());
        extend(&mut out, chars_of(" print with no Piltover Archive set number and no base print to fold to").as_slice());
        return Err(string_of(out.as_slice()));
    }
    Ok(code)
}

/// The code entries of zone entries, in order, or why the first one that
/// cannot be carried cannot.
pub open spec fn zone_codes(z: Zone) -> Result<Seq<CodeEntry>, Seq<char>>
    decreases z.len(),
{
    if z.len() == 0 {
        Ok(Seq::empty())
    } else {
        match zone_codes(z.drop_last()) {
            Err(m) => Err(m),
            Ok(es) => match encodable_spec(z.last().0.1) {
                Err(m) => Err(m),
                Ok(c) => Ok(es.push(CodeEntry { code: c, count: z.last().1 })),
            },
        }
    }
}

/// A seated card as one zone entry of one copy.
pub open spec fn seat_zone(c: Option<CardView>) -> Zone {
    match c {
        Some(v) => seq![(v, 1u32)],
        None => Seq::empty(),
    }
}

/// The main section a deck code carries for a deck: the legend, the chosen
/// champion, then the main deck, runes and battlefields, in order.
pub open spec fn main_zone(d: DeckView) -> Zone {
    seat_zone(d.0) + seat_zone(d.1) + d.2 + d.3 + d.4
}

/// What `encode_deck` makes of a deck: the first card, in the order of the
/// main section then the sideboard, that cannot be carried is named;
/// else the code of the main section, the sideboard and the chosen
/// champion, as `encode` writes it.
pub open spec fn deck_encoded(d: DeckView, r: Result<String, String>) -> bool {
    match zone_codes(main_zone(d)) {
        Err(m) => r matches Err(e) && e@ == m,
        Ok(main) => match zone_codes(d.5) {
            Err(m) => r matches Err(e) && e@ == m,
            Ok(side) => {
                let champion = match d.1 {
                    Some(v) => Some(encodable_spec(v.1)->Ok_0),
                    None => None,
                };
                match encode_spec((main, side, champion)) {
                    Ok(b) => r matches Ok(s) && s@ == base32(b),
                    Err(f) => r matches Err(e) && exists|x: DeckCodeError| x.is_encode_fault(f) && e@ == #[trigger] code_error_message(x),
                }
            },
        },
    }
}

/// No card is asked for more copies, over a section, than a `u32` holds.
pub open spec fn deck_counts_fit(d: DeckView) -> bool {
    &&& zone_codes(main_zone(d)) matches Ok(m) ==> counts_fit(m)
    &&& zone_codes(d.5) matches Ok(s) ==> counts_fit(s)
}

proof fn lemma_copies_of_prefix(e: Seq<CodeEntry>, j: int, x: CardCode)
    requires
        0 <= j <= e.len(),
    ensures
        copies_of(e.take(j), x) <= copies_of(e, x),
    decreases e.len() - j,
{
    if j < e.len() {
        lemma_copies_of_prefix(e, j + 1, x);
        assert(e.take(j + 1).drop_last() =~= e.take(j));
    } else {
        assert(e.take(j) =~= e);
    }
}

proof fn lemma_copies_of_absent(e: Seq<CodeEntry>, x: CardCode)
    requires
        forall|i: int| 0 <= i < e.len() ==> (#[trigger] e[i]).code != x,
    ensures
        copies_of(e, x) == 0,
    decreases e.len(),
{
    if e.len() > 0 {
        assert forall|i: int| 0 <= i < e.drop_last().len() implies (#[trigger] e.drop_last()[i]).code != x by {
            assert(e.drop_last()[i] == e[i]);
        }
        lemma_copies_of_absent(e.drop_last(), x);
        assert(e[e.len() - 1] == e.last());
    }
}

fn copies_fit(entries: &[CodeEntry], code: CardCode) -> (r: bool)
    ensures
        r == (copies_of(entries@, code) <= u32::MAX),
{
    let mut sum: u64 = 0;
    let mut j: usize = 0;
    while j < entries.len()
        invariant
            j <= entries@.len(),
            sum == copies_of(entries@.take(j as int), code),
            sum <= u32::MAX,
        decreases entries@.len() - j,
    {
        assert(entries@.take(j as int + 1).drop_last() =~= entries@.take(j as int));
        if entries[j].code == code {
            sum = sum + entries[j].count as u64;
        }
        j = j + 1;
        if sum > 4294967295u64 {
            proof {
                lemma_copies_of_prefix(entries@, j as int, code);
            }
            return false;
        }
    }
    assert(entries@.take(j as int) =~= entries@);
    true
}

/// Whether no card is asked for more copies in all than a `u32` holds.
pub fn counts_fit_of(entries: &[CodeEntry]) -> (r: bool)
    ensures
        r == counts_fit(entries@),
{
    let mut i: usize = 0;
    while i < entries.len()
        invariant
            i <= entries@.len(),
            forall|k: int| 0 <= k < i ==> copies_of(entries@, (#[trigger] entries@[k]).code) <= u32::MAX,
        decreases entries@.len() - i,
    {
        if !copies_fit(entries, entries[i].code) {
            return false;
        }
        i = i + 1;
    }
    assert forall|x: CardCode| copies_of(entries@, x) <= u32::MAX by {
        if exists|k: int| 0 <= k < entries@.len() && (#[trigger] entries@[k]).code == x {
            let k = choose|k: int| 0 <= k < entries@.len() && (#[trigger] entries@[k]).code == x;
        } else {
            lemma_copies_of_absent(entries@, x);
        }
    }
    true
}

/// Tests what `encode_deck` needs of a deck: whether no card is asked for
/// more copies, over a section, than a `u32` holds.
pub fn deck_counts_fit_of(deck: &ResolvedDeck) -> (r: bool)
    ensures
        r == deck_counts_fit(deck@),
{
    let main_fits = match main_entries(deck) {
        Ok(m) => counts_fit_of(m.as_slice()),
        Err(_) => true,
    };
    let mut side: Vec<CodeEntry> = Vec::new();
    let side_fits = match push_zone(&mut side, &deck.sideboard) {
        Ok(()) => {
            assert(side@ =~= zone_codes(deck@.5)->Ok_0);
            counts_fit_of(side.as_slice())
        },
        Err(_) => true,
    };
    main_fits && side_fits
}

fn entry_of(riftbound_id: &str, count: u32) -> (r: Result<CodeEntry, String>)
    ensures
        match encodable_spec(riftbound_id@) {
            Ok(c) => r == Ok::<CodeEntry, String>(CodeEntry { code: c, count }),
            Err(m) => r matches Err(e) && e@ == m,
        },
{
    let code = encodable(riftbound_id)?;
    Ok(CodeEntry { code, count })
}

fn push_zone(out: &mut Vec<CodeEntry>, zone: &Vec<DeckEntry>) -> (r: Result<(), String>)
    ensures
        match zone_codes(zone_view(zone@)) {
            Ok(es) => r is Ok && final(out)@ == old(out)@ + es,
            Err(m) => r matches Err(e) && e@ == m,
        },
{
    let ghost start = old(out)@;
    let mut i: usize = 0;
    while i < zone.len()
        invariant
            i <= zone@.len(),
            start == old(out)@,
            zone_codes(zone_view(zone@).take(i as int)) matches Ok(es) && out@ == start + es,
        decreases zone@.len() - i,
    {
        let ghost z = zone_view(zone@).take(i as int + 1);
        assert(z.drop_last() =~= zone_view(zone@).take(i as int));
        assert(z.last() == (zone@[i as int].card@, zone@[i as int].count));
        let entry = match entry_of(zone[i].card.riftbound_id.as_str(), zone[i].count) {
            Ok(e) => e,
            Err(e) => {
                proof {
                    let zv = zone_view(zone@);
                    lemma_zone_codes_concat(zv.take(i as int + 1), zv.skip(i as int + 1));
                    assert(zv.take(i as int + 1) + zv.skip(i as int + 1) =~= zv);
                }
                return Err(e);
            },
        };
        out.push(entry);
        i = i + 1;
        proof {
            let es = zone_codes(zone_view(zone@).take(i as int))->Ok_0;
            assert(out@ =~= start + es);
        }
    }
    assert(zone_view(zone@).take(i as int) =~= zone_view(zone@));
    Ok(())
}

proof fn lemma_zone_codes_concat(a: Zone, b: Zone)
    ensures
        zone_codes(a + b) == match zone_codes(a) {
            Err(m) => Err(m),
            Ok(x) => match zone_codes(b) {
                Err(m) => Err::<Seq<CodeEntry>, Seq<char>>(m),
                Ok(y) => Ok(x + y),
            },
        },
    decreases b.len(),
{
    if b.len() == 0 {
        assert(a + b =~= a);
        if zone_codes(a) is Ok {
            assert(zone_codes(a)->Ok_0 + Seq::<CodeEntry>::empty() =~= zone_codes(a)->Ok_0);
        }
    } else {
        assert((a + b).drop_last() =~= a + b.drop_last());
        assert((a + b).last() == b.last());
        lemma_zone_codes_concat(a, b.drop_last());
        if zone_codes(a) is Ok && zone_codes(b.drop_last()) is Ok && zone_codes(b) is Ok {
            let x = zone_codes(a)->Ok_0;
            let y = zone_codes(b.drop_last())->Ok_0;
            let e = zone_codes(b)->Ok_0.last();
            assert((x + y).push(e) =~= x + y.push(e));
        }
    }
}

proof fn lemma_seat_codes(c: Option<CardView>)
    ensures
        zone_codes(seat_zone(c)) == match c {
            None => Ok(Seq::<CodeEntry>::empty()),
            Some(v) => match encodable_spec(v.1) {
                Ok(code) => Ok(seq![CodeEntry { code, count: 1u32 }]),
                Err(m) => Err::<Seq<CodeEntry>, Seq<char>>(m),
            },
        },
{
    assert(zone_codes(Seq::<(CardView, u32)>::empty()) == Ok::<Seq<CodeEntry>, Seq<char>>(Seq::<CodeEntry>::empty()));
    match c {
        Some(v) => {
            assert(seat_zone(c).drop_last() =~= Seq::<(CardView, u32)>::empty());
            assert(seat_zone(c).last() == (v, 1u32));
            assert(Seq::<CodeEntry>::empty().push(CodeEntry { code: encodable_spec(v.1)->Ok_0, count: 1u32 }) =~= seq![CodeEntry { code: encodable_spec(v.1)->Ok_0, count: 1u32 }]);
        },
        None => {},
    }
}

/// The main section a deck code carries for a deck, or why the first card
/// that cannot be carried cannot.
fn main_entries(deck: &ResolvedDeck) -> (r: Result<Vec<CodeEntry>, String>)
    ensures
        match zone_codes(main_zone(deck@)) {
            Ok(m) => r matches Ok(v) && v@ == m,
            Err(m) => r matches Err(e) && e@ == m,
        },
{
    let mut main: Vec<CodeEntry> = Vec::new();
    let ghost d = deck@;
    let ghost seats = seat_zone(d.0) + seat_zone(d.1);
    let ghost rest = d.2 + d.3 + d.4;
    proof {
        assert(main_zone(d) =~= seats + rest);
        assert(seats + rest =~= seat_zone(d.0) + (seat_zone(d.1) + rest));
        lemma_zone_codes_concat(seats, rest);
        lemma_zone_codes_concat(seat_zone(d.0), seat_zone(d.1));
        lemma_zone_codes_concat(seat_zone(d.0), seat_zone(d.1) + rest);
        lemma_zone_codes_concat(seat_zone(d.1), rest);
    }
    match &deck.legend {
        Some(legend) => {
            let e = match entry_of(legend.riftbound_id.as_str(), 1) {
                Ok(e) => e,
                Err(e) => {
                    assert(seat_zone(d.0).drop_last() =~= Seq::<(CardView, u32)>::empty());
                    return Err(e);
                },
            };
            main.push(e);
        },
        None => {},
    }
    proof {
        lemma_seat_codes(d.0);
        lemma_seat_codes(d.1);
        assert(zone_codes(seat_zone(d.0)) matches Ok(x) && main@ =~= x);
    }
    let ghost before_champion = main@;
    match &deck.chosen_champion {
        Some(champion) => {
            let e = match entry_of(champion.riftbound_id.as_str(), 1) {
                Ok(e) => e,
                Err(e) => {
                    proof {
                        assert(seat_zone(d.1).drop_last() =~= Seq::<(CardView, u32)>::empty());
                        if d.0 is Some {
                            assert(seat_zone(d.0).drop_last() =~= Seq::<(CardView, u32)>::empty());
                        }
                    }
                    return Err(e);
                },
            };
            main.push(e);
        },
        None => {},
    }
    proof {
        lemma_zone_codes_concat(seat_zone(d.0), seat_zone(d.1));
        match d.0 {
            Some(v) => {
                assert(seat_zone(d.0).drop_last() =~= Seq::<(CardView, u32)>::empty());
            },
            None => {},
        }
        match d.1 {
            Some(v) => {
                assert(seat_zone(d.1).drop_last() =~= Seq::<(CardView, u32)>::empty());
            },
            None => {},
        }
        assert(zone_codes(seat_zone(d.0)) matches Ok(x) && before_champion =~= x);
        match d.1 {
            Some(v) => {
                assert(seat_zone(d.1).last() == (v, 1u32));
                assert(zone_codes(seat_zone(d.1)) matches Ok(y) && y =~= seq![main@.last()]);
                assert(main@ =~= before_champion + seq![main@.last()]);
            },
            None => {
                assert(seat_zone(d.1) =~= Seq::<(CardView, u32)>::empty());
                assert(main@ =~= before_champion + Seq::<CodeEntry>::empty());
            },
        }
        assert(zone_codes(seats) matches Ok(x) && main@ =~= x);
    }
    proof {
        lemma_zone_codes_concat(seats, d.2);
        lemma_zone_codes_concat(seats + d.2, d.3);
        lemma_zone_codes_concat(seats + d.2 + d.3, d.4);
        assert(main_zone(d) =~= seats + d.2 + d.3 + d.4);
    }
    match push_zone(&mut main, &deck.main_deck) {
        Ok(()) => {},
        Err(e) => {
            return Err(e);
        },
    }
    match push_zone(&mut main, &deck.runes) {
        Ok(()) => {},
        Err(e) => {
            return Err(e);
        },
    }
    match push_zone(&mut main, &deck.battlefields) {
        Ok(()) => {},
        Err(e) => {
            return Err(e);
        },
    }
    Ok(main)
}

/// Writes the deck code of a resolved deck: the legend, the chosen
/// champion and the main deck, runes and battlefields as the main section,
/// the sideboard as the sideboard, and the chosen champion named as such.
pub fn encode_deck(deck: &ResolvedDeck) -> (r: Result<String, String>)
    requires
        deck_counts_fit(deck@),
    ensures
        deck_encoded(deck@, r),
{
    let main = match main_entries(deck) {
        Ok(m) => m,
        Err(e) => {
            return Err(e);
        },
    };
    proof {
        let d = deck@;
        let rest = d.2 + d.3 + d.4;
        assert(main_zone(d) =~= seat_zone(d.0) + (seat_zone(d.1) + rest));
        lemma_zone_codes_concat(seat_zone(d.0), seat_zone(d.1) + rest);
        lemma_zone_codes_concat(seat_zone(d.1), rest);
        match d.1 {
            Some(v) => {
                assert(seat_zone(d.1).drop_last() =~= Seq::<(CardView, u32)>::empty());
                assert(seat_zone(d.1).last() == (v, 1u32));
            },
            None => {},
        }
    }
    let mut sideboard: Vec<CodeEntry> = Vec::new();
    match push_zone(&mut sideboard, &deck.sideboard) {
        Ok(()) => {},
        Err(e) => {
            return Err(e);
        },
    }
    assert(sideboard@ =~= zone_codes(deck@.5)->Ok_0);
    let champion = match &deck.chosen_champion {
        Some(card) => Some(encodable(card.riftbound_id.as_str())?),
        None => None,
    };
    let decoded = DecodedDeck { main, sideboard, champion };
    match encode(&decoded) {
        Ok(s) => Ok(s),
        Err(e) => Err(e.message()),
    }
}

} // verus!
