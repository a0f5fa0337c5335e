//! Riftbound card codes: `SET-NUMBER[variant]` as printed (`OGN-045`,
//! `OGN-R05`, `UNL-SP3`, `UNL-116a`) and as catalog ids (`unl-229*-219`).
use vstd::prelude::*;
use crate::text::{
    all_digits, chars_of, decimal, digit_run, digit_run_of, digits_value, extend, is, is_digit,
    lacks, lemma_decimal_digits, lemma_digit_run, lemma_digit_run_concat, lemma_find_char_concat,
    lemma_padded_digits, lemma_rfind_char_concat, lemma_rfind_char_none, lower_all, lower_seq,
    padded, parse_u32, parse_u32_of, push_decimal, push_padded, rsplit_once, rsplit_once_char,
    slice, split_once, split_once_char, starts, starts_with, string_of, upper_all, upper_seq,
    all_digits_in, copy,
};

verus! {

#[derive(Debug, Clone, Copy, PartialEq, Eq, PartialOrd, Ord, Hash, Structural)]
pub enum SetCode {
    Ogn,
    Ogs,
    Arc,
    Sfd,
    Unl,
    Ven,
    Rad,
    Opp,
    Pr,
    Jdg,
}

/// The wire byte of a set that has no wire number of its own.
pub const UNPUBLISHED_WIRE: u8 = 255u8;

/// The printed name of a set.
pub open spec fn set_name(s: SetCode) -> Seq<char> {
    match s {
        SetCode::Ogn => seq!['O', 'G', 'N'],
        SetCode::Ogs => seq!['O', 'G', 'S'],
        SetCode::Arc => seq!['A', 'R', 'C'],
        SetCode::Sfd => seq!['S', 'F', 'D'],
        SetCode::Unl => seq!['U', 'N', 'L'],
        SetCode::Ven => seq!['V', 'E', 'N'],
        SetCode::Rad => seq!['R', 'A', 'D'],
        SetCode::Opp => seq!['O', 'P', 'P'],
        SetCode::Pr => seq!['P', 'R'],
        SetCode::Jdg => seq!['J', 'D', 'G'],
    }
}

/// The set a name spells, whatever its ASCII case.
pub open spec fn set_of(text: Seq<char>) -> Option<SetCode> {
    let u = upper_seq(text);
    if u == set_name(SetCode::Ogn) {
        Some(SetCode::Ogn)
    } else if u == set_name(SetCode::Ogs) {
        Some(SetCode::Ogs)
    } else if u == set_name(SetCode::Arc) {
        Some(SetCode::Arc)
    } else if u == set_name(SetCode::Sfd) {
        Some(SetCode::Sfd)
    } else if u == set_name(SetCode::Unl) {
        Some(SetCode::Unl)
    } else if u == set_name(SetCode::Ven) {
        Some(SetCode::Ven)
    } else if u == set_name(SetCode::Rad) {
        Some(SetCode::Rad)
    } else if u == set_name(SetCode::Opp) {
        Some(SetCode::Opp)
    } else if u == set_name(SetCode::Pr) {
        Some(SetCode::Pr)
    } else if u == set_name(SetCode::Jdg) {
        Some(SetCode::Jdg)
    } else {
        None
    }
}

pub open spec fn spec_wire(s: SetCode) -> Option<u8> {
    match s {
        SetCode::Ogn => Some(0u8),
        SetCode::Ogs => Some(1u8),
        SetCode::Arc => Some(2u8),
        SetCode::Sfd => Some(3u8),
        SetCode::Unl => Some(4u8),
        SetCode::Ven => Some(5u8),
        SetCode::Rad => Some(6u8),
        _ => None,
    }
}

pub open spec fn set_from_wire(v: u8) -> Option<SetCode> {
    if v == 0 {
        Some(SetCode::Ogn)
    } else if v == 1 {
        Some(SetCode::Ogs)
    } else if v == 2 {
        Some(SetCode::Arc)
    } else if v == 3 {
        Some(SetCode::Sfd)
    } else if v == 4 {
        Some(SetCode::Unl)
    } else if v == 5 {
        Some(SetCode::Ven)
    } else if v == 6 {
        Some(SetCode::Rad)
    } else {
        None
    }
}

pub open spec fn is_reprint_set(s: SetCode) -> bool {
    s == SetCode::Opp || s == SetCode::Pr || s == SetCode::Jdg
}

/// The base set whose size a reprint's id names.
pub open spec fn base_set_for_total(total: u32) -> Option<SetCode> {
    if total == 298 {
        Some(SetCode::Ogn)
    } else if total == 24 {
        Some(SetCode::Ogs)
    } else if total == 221 {
        Some(SetCode::Sfd)
    } else if total == 219 {
        Some(SetCode::Unl)
    } else if total == 166 {
        Some(SetCode::Ven)
    } else {
        None
    }
}

/// The sets a deck code's set byte names, by their printed names, in the
/// order of the published byte values: 0 is Origins (OGN), 1 its proving
/// grounds (OGS), then ARC, SFD, UNL, VEN and RAD.
pub open spec fn published_wire_sets() -> Seq<Seq<char>> {
    seq![
        seq!['O', 'G', 'N'],
        seq!['O', 'G', 'S'],
        seq!['A', 'R', 'C'],
        seq!['S', 'F', 'D'],
        seq!['U', 'N', 'L'],
        seq!['V', 'E', 'N'],
        seq!['R', 'A', 'D'],
    ]
}

/// A set byte names the set the published format gives it, and a set is
/// written as that byte: every byte in the published table reads as the
/// set of that printed name, no other byte reads as a set, a set with a
/// byte reads back from it, and only the reprint sets have none.
pub proof fn lemma_wire_bytes_are_published()
    ensures
        forall|v: u8| (v as int) < published_wire_sets().len() ==> (#[trigger] set_from_wire(v) matches Some(s) && set_name(s) == published_wire_sets()[v as int]),
        forall|v: u8| (v as int) >= published_wire_sets().len() ==> #[trigger] set_from_wire(v) is None,
        forall|s: SetCode| #[trigger] spec_wire(s) matches Some(v) ==> set_from_wire(v) == Some(s),
        forall|s: SetCode| (#[trigger] spec_wire(s) is None) <==> is_reprint_set(s),
{
    let t = published_wire_sets();
    assert(t[0] == set_name(SetCode::Ogn));
    assert(t[1] == set_name(SetCode::Ogs));
    assert(t[2] == set_name(SetCode::Arc));
    assert(t[3] == set_name(SetCode::Sfd));
    assert(t[4] == set_name(SetCode::Unl));
    assert(t[5] == set_name(SetCode::Ven));
    assert(t[6] == set_name(SetCode::Rad));
}

/// The size each base set's ids end with, by the set's printed name.
pub open spec fn published_set_sizes() -> Seq<(Seq<char>, u32)> {
    seq![
        (seq!['O', 'G', 'N'], 298u32),
        (seq!['O', 'G', 'S'], 24u32),
        (seq!['S', 'F', 'D'], 221u32),
        (seq!['U', 'N', 'L'], 219u32),
        (seq!['V', 'E', 'N'], 166u32),
    ]
}

/// A reprint folds to the base set whose size its id names: a size in the
/// published table names the set printed under that name, no other size
/// names a set, and a reprint code whose id names such a size becomes the
/// same card in that set.
pub proof fn lemma_reprints_fold_by_set_size()
    ensures
        forall|i: int| 0 <= i < published_set_sizes().len() ==> (#[trigger] base_set_for_total(published_set_sizes()[i].1) matches Some(s) && set_name(s) == published_set_sizes()[i].0),
        forall|t: u32| (forall|i: int| 0 <= i < published_set_sizes().len() ==> published_set_sizes()[i].1 != t) ==> #[trigger] base_set_for_total(t) is None,
        forall|c: CardCode, i: int| 0 <= i < published_set_sizes().len() && is_reprint_set(c.set) ==> #[trigger] set_name(base_print_spec(c, Some(published_set_sizes()[i].1)).set) == published_set_sizes()[i].0 && base_print_spec(c, Some(published_set_sizes()[i].1)).number == c.number && base_print_spec(c, Some(published_set_sizes()[i].1)).variant == c.variant,
{
    let t = published_set_sizes();
    assert(t[0] == (set_name(SetCode::Ogn), 298u32));
    assert(t[1] == (set_name(SetCode::Ogs), 24u32));
    assert(t[2] == (set_name(SetCode::Sfd), 221u32));
    assert(t[3] == (set_name(SetCode::Unl), 219u32));
    assert(t[4] == (set_name(SetCode::Ven), 166u32));
    assert forall|x: u32| (forall|i: int| 0 <= i < t.len() ==> t[i].1 != x) implies #[trigger] base_set_for_total(x) is None by {
        assert(t[0].1 != x && t[1].1 != x && t[2].1 != x && t[3].1 != x && t[4].1 != x);
    }
}

impl SetCode {
    pub fn from_wire(value: u8) -> (r: Option<Self>)
        ensures
            r == set_from_wire(value),
    {
        match value {
            0 => Some(Self::Ogn),
            1 => Some(Self::Ogs),
            2 => Some(Self::Arc),
            3 => Some(Self::Sfd),
            4 => Some(Self::Unl),
            5 => Some(Self::Ven),
            6 => Some(Self::Rad),
            _ => None,
        }
    }

    pub fn wire(self) -> (r: Option<u8>)
        ensures
            r == spec_wire(self),
    {
        match self {
            Self::Ogn => Some(0),
            Self::Ogs => Some(1),
            Self::Arc => Some(2),
            Self::Sfd => Some(3),
            Self::Unl => Some(4),
            Self::Ven => Some(5),
            Self::Rad => Some(6),
            Self::Opp | Self::Pr | Self::Jdg => None,
        }
    }

    pub fn to_wire(self) -> (r: u8)
        ensures
            r == match spec_wire(self) {
                Some(w) => w,
                None => UNPUBLISHED_WIRE,
            },
    {
        match self.wire() {
            Some(w) => w,
            None => UNPUBLISHED_WIRE,
        }
    }

    pub fn reprints_another_set(self) -> (r: bool)
        ensures
            r == is_reprint_set(self),
    {
        match self {
            Self::Opp | Self::Pr | Self::Jdg => true,
            _ => false,
        }
    }

    pub fn base_for_total(total: u32) -> (r: Option<Self>)
        ensures
            r == base_set_for_total(total),
    {
        match total {
            298 => Some(Self::Ogn),
            24 => Some(Self::Ogs),
            221 => Some(Self::Sfd),
            219 => Some(Self::Unl),
            166 => Some(Self::Ven),
            _ => None,
        }
    }

    pub fn parse(text: &str) -> (r: Option<Self>)
        ensures
            r == set_of(text@),
    {
        let cs = chars_of(text);
        Self::parse_chars(cs.as_slice())
    }

    pub fn parse_chars(text: &[char]) -> (r: Option<Self>)
        ensures
            r == set_of(text@),
    {
        let u = upper_all(text);
        let u = u.as_slice();
        proof {
            reveal_strlit("OGN");
            reveal_strlit("OGS");
            reveal_strlit("ARC");
            reveal_strlit("SFD");
            reveal_strlit("UNL");
            reveal_strlit("VEN");
            reveal_strlit("RAD");
            reveal_strlit("OPP");
            reveal_strlit("PR");
            reveal_strlit("JDG");
            assert("OGN"@ =~= set_name(SetCode::Ogn));
            assert("OGS"@ =~= set_name(SetCode::Ogs));
            assert("ARC"@ =~= set_name(SetCode::Arc));
            assert("SFD"@ =~= set_name(SetCode::Sfd));
            assert("UNL"@ =~= set_name(SetCode::Unl));
            assert("VEN"@ =~= set_name(SetCode::Ven));
            assert("RAD"@ =~= set_name(SetCode::Rad));
            assert("OPP"@ =~= set_name(SetCode::Opp));
            assert("PR"@ =~= set_name(SetCode::Pr));
            assert("JDG"@ =~= set_name(SetCode::Jdg));
        }
        if is(u, "OGN") {
            Some(Self::Ogn)
        } else if is(u, "OGS") {
            Some(Self::Ogs)
        } else if is(u, "ARC") {
            Some(Self::Arc)
        } else if is(u, "SFD") {
            Some(Self::Sfd)
        } else if is(u, "UNL") {
            Some(Self::Unl)
        } else if is(u, "VEN") {
            Some(Self::Ven)
        } else if is(u, "RAD") {
            Some(Self::Rad)
        } else if is(u, "OPP") {
            Some(Self::Opp)
        } else if is(u, "PR") {
            Some(Self::Pr)
        } else if is(u, "JDG") {
            Some(Self::Jdg)
        } else {
            None
        }
    }

    pub fn as_str(self) -> (r: &'static str)
        ensures
            r@ == set_name(self),
    {
        proof {
            reveal_strlit("OGN");
            reveal_strlit("OGS");
            reveal_strlit("ARC");
            reveal_strlit("SFD");
            reveal_strlit("UNL");
            reveal_strlit("VEN");
            reveal_strlit("RAD");
            reveal_strlit("OPP");
            reveal_strlit("PR");
            reveal_strlit("JDG");
        }
        match self {
            Self::Ogn => "OGN",
            Self::Ogs => "OGS",
            Self::Arc => "ARC",
            Self::Sfd => "SFD",
            Self::Unl => "UNL",
            Self::Ven => "VEN",
            Self::Rad => "RAD",
            Self::Opp => "OPP",
            Self::Pr => "PR",
            Self::Jdg => "JDG",
        }
    }

    /// The ten sets, in catalog order.
    pub fn all() -> (r: [Self; 10])
        ensures
            r@ == seq![
                SetCode::Ogn,
                SetCode::Ogs,
                SetCode::Arc,
                SetCode::Sfd,
                SetCode::Unl,
                SetCode::Ven,
                SetCode::Rad,
                SetCode::Opp,
                SetCode::Pr,
                SetCode::Jdg,
            ],
    {
        let r = [
            Self::Ogn,
            Self::Ogs,
            Self::Arc,
            Self::Sfd,
            Self::Unl,
            Self::Ven,
            Self::Rad,
            Self::Opp,
            Self::Pr,
            Self::Jdg,
        ];
        assert(r@ =~= seq![
            SetCode::Ogn,
            SetCode::Ogs,
            SetCode::Arc,
            SetCode::Sfd,
            SetCode::Unl,
            SetCode::Ven,
            SetCode::Rad,
            SetCode::Opp,
            SetCode::Pr,
            SetCode::Jdg,
        ]);
        r
    }
}

/// Every set reads back from its name, in either case, and from its wire
/// byte when it has one; only the reprint sets have none.
pub proof fn lemma_set_round_trip(s: SetCode)
    ensures
        set_of(set_name(s)) == Some(s),
        set_of(lower_seq(set_name(s))) == Some(s),
        spec_wire(s) matches Some(w) ==> set_from_wire(w) == Some(s),
        spec_wire(s) is None <==> is_reprint_set(s),
        set_from_wire(UNPUBLISHED_WIRE) is None,
{
    assert(upper_seq(set_name(s)) =~= set_name(s));
    assert(upper_seq(lower_seq(set_name(s))) =~= set_name(s));
}

#[derive(Debug, Clone, Copy, PartialEq, Eq, PartialOrd, Ord, Hash, Structural)]
pub enum CardNumber {
    Normal(u32),
    Rune(u32),
    Special(u32),
}

#[derive(Debug, Clone, Copy, PartialEq, Eq, PartialOrd, Ord, Hash, Structural)]
pub enum Variant {
    Base,
    Alternate,
    Signed,
    B,
}

pub open spec fn variant_from_wire(v: u8) -> Option<Variant> {
    if v == 0 {
        Some(Variant::Base)
    } else if v == 1 {
        Some(Variant::Alternate)
    } else if v == 2 {
        Some(Variant::Signed)
    } else if v == 3 {
        Some(Variant::B)
    } else {
        None
    }
}

pub open spec fn variant_wire(v: Variant) -> u8 {
    match v {
        Variant::Base => 0,
        Variant::Alternate => 1,
        Variant::Signed => 2,
        Variant::B => 3,
    }
}

/// The printed suffix of a variant.
pub open spec fn variant_suffix(v: Variant) -> Seq<char> {
    match v {
        Variant::Base => Seq::empty(),
        Variant::Alternate => seq!['a'],
        Variant::Signed => seq!['s'],
        Variant::B => seq!['b'],
    }
}

/// The suffix of a variant in catalog ids, where the signed print is `*`.
pub open spec fn variant_id_suffix(v: Variant) -> Seq<char> {
    match v {
        Variant::Signed => seq!['*'],
        _ => variant_suffix(v),
    }
}

/// The variant a printed or catalog suffix names.
pub open spec fn variant_of(t: Seq<char>) -> Option<Variant> {
    if t.len() == 0 {
        Some(Variant::Base)
    } else if t == seq!['a'] {
        Some(Variant::Alternate)
    } else if t == seq!['s'] || t == seq!['*'] {
        Some(Variant::Signed)
    } else if t == seq!['b'] {
        Some(Variant::B)
    } else {
        None
    }
}

/// The printed suffixes a card code's variant byte stands for, in byte
/// order: none for the base print, then `a`, `s` and `b`.
pub open spec fn published_variant_suffixes() -> Seq<Seq<char>> {
    seq![Seq::empty(), seq!['a'], seq!['s'], seq!['b']]
}

/// A variant byte names the print the published format gives it: each byte
/// of the table reads as the variant printed with that suffix, no other
/// byte reads as a variant, a variant is written as the byte it reads back
/// from, and the signed print is spelled `*` in catalog ids.
pub proof fn lemma_variant_bytes_are_published()
    ensures
        forall|v: u8| (v as int) < published_variant_suffixes().len() ==> (#[trigger] variant_from_wire(v) matches Some(x) && variant_suffix(x) == published_variant_suffixes()[v as int]),
        forall|v: u8| (v as int) >= published_variant_suffixes().len() ==> #[trigger] variant_from_wire(v) is None,
        forall|x: Variant| #[trigger] variant_from_wire(variant_wire(x)) == Some(x),
        forall|x: Variant| #[trigger] variant_id_suffix(x) == if variant_suffix(x) == seq!['s'] { seq!['*'] } else { variant_suffix(x) },
{
    let t = published_variant_suffixes();
    assert(t[0] == variant_suffix(Variant::Base));
    assert(t[1] == variant_suffix(Variant::Alternate));
    assert(t[2] == variant_suffix(Variant::Signed));
    assert(t[3] == variant_suffix(Variant::B));
    assert(seq!['a'] != seq!['s']) by {
        assert(seq!['a'][0] != seq!['s'][0]);
    }
    assert(seq!['b'] != seq!['s']) by {
        assert(seq!['b'][0] != seq!['s'][0]);
    }
    assert(Seq::<char>::empty() != seq!['s']) by {
        assert(seq!['s'].len() == 1);
    }
}

impl Variant {
    pub fn from_wire(value: u8) -> (r: Option<Self>)
        ensures
            r == variant_from_wire(value),
    {
        match value {
            0 => Some(Self::Base),
            1 => Some(Self::Alternate),
            2 => Some(Self::Signed),
            3 => Some(Self::B),
            _ => None,
        }
    }

    pub fn to_wire(self) -> (r: u8)
        ensures
            r == variant_wire(self),
            variant_from_wire(r) == Some(self),
    {
        match self {
            Self::Base => 0,
            Self::Alternate => 1,
            Self::Signed => 2,
            Self::B => 3,
        }
    }

    pub fn suffix(self) -> (r: &'static str)
        ensures
            r@ == variant_suffix(self),
    {
        proof {
            reveal_strlit("");
            reveal_strlit("a");
            reveal_strlit("s");
            reveal_strlit("b");
        }
        match self {
            Self::Base => "",
            Self::Alternate => "a",
            Self::Signed => "s",
            Self::B => "b",
        }
    }

    pub fn id_suffix(self) -> (r: &'static str)
        ensures
            r@ == variant_id_suffix(self),
    {
        proof {
            reveal_strlit("*");
        }
        match self {
            Self::Signed => "*",
            other => other.suffix(),
        }
    }
}

#[derive(Debug, Clone, Copy, PartialEq, Eq, PartialOrd, Ord, Hash, Structural)]
pub struct CardCode {
    pub set: SetCode,
    pub number: CardNumber,
    pub variant: Variant,
}

/// A text that is not a card code.
#[derive(Debug, Clone, PartialEq, Eq)]
pub struct CardCodeError {
    pub input: String,
}

/// The message a reader sees of a text that is not a card code.
pub open spec fn card_code_error_message(input: Seq<char>) -> Seq<char> {
    crate::text::str_debug(input) + " is not a card code like OGN-045, OGN-R05, OGN-SP3 or UNL-116a"@
}

impl CardCodeError {
    /// The message a reader sees.
    pub fn message(&self) -> (r: String)
        ensures
            r@ == card_code_error_message(self.input@),
    {
        let mut out = chars_of(crate::text::debug_str(self.input.as_str()).as_str());
        extend(&mut out, chars_of(" is not a card code like OGN-045, OGN-R05, OGN-SP3 or UNL-116a").as_slice());
        string_of(out.as_slice())
    }
}

/// The printed number: three digits, `R` and two digits, or `SP` and the digits.
pub open spec fn number_text(n: CardNumber) -> Seq<char> {
    match n {
        CardNumber::Normal(v) => padded(v as nat, 3),
        CardNumber::Rune(v) => seq!['R'] + padded(v as nat, 2),
        CardNumber::Special(v) => seq!['S', 'P'] + decimal(v as nat),
    }
}

/// A code as printed, `OGN-045` or `UNL-116a`.
pub open spec fn code_text(c: CardCode) -> Seq<char> {
    set_name(c.set) + seq!['-'] + number_text(c.number) + variant_suffix(c.variant)
}

/// A code as the catalog's ids spell it, `unl-229*`.
pub open spec fn id_fragment_text(c: CardCode) -> Seq<char> {
    lower_seq(set_name(c.set)) + seq!['-'] + lower_seq(number_text(c.number))
        + variant_id_suffix(c.variant)
}

pub open spec fn number_of(kind: int, v: u32) -> CardNumber {
    if kind == 1 {
        CardNumber::Special(v)
    } else if kind == 2 {
        CardNumber::Rune(v)
    } else {
        CardNumber::Normal(v)
    }
}

/// The number kind a code's body starts with, and where its digits start.
pub open spec fn number_kind(rest: Seq<char>) -> (int, int) {
    let ru = upper_seq(rest);
    if starts(ru, seq!['S', 'P']) {
        (1, 2)
    } else if starts(ru, seq!['R']) {
        (2, 1)
    } else {
        (0, 0)
    }
}

/// The code a body after `SET-` spells with `set`.
pub open spec fn code_body(set: SetCode, rest: Seq<char>) -> Option<CardCode> {
    let (kind, at) = number_kind(rest);
    let tail = rest.skip(at);
    let dl = digit_run(tail) as int;
    if dl == 0 {
        None
    } else {
        match parse_u32(tail.take(dl)) {
            None => None,
            Some(v) => match variant_of(tail.skip(dl)) {
                None => None,
                Some(variant) => Some(CardCode { set, number: number_of(kind, v), variant }),
            },
        }
    }
}

/// The code a text spells, as `CardCode::parse` reads it.
pub open spec fn code_of(s: Seq<char>) -> Option<CardCode> {
    match split_once(s, seq!['-']) {
        None => None,
        Some((set_text, rest)) => match set_of(set_text) {
            None => None,
            Some(set) => code_body(set, rest),
        },
    }
}

/// The body of a catalog id: what follows the set, without a trailing
/// `-SIZE` when there is one.
pub open spec fn id_body(rest: Seq<char>) -> Seq<char> {
    match rsplit_once(rest, seq!['-']) {
        Some((body, size)) => if all_digits(size) && body.len() > 0 {
            body
        } else {
            rest
        },
        None => rest,
    }
}

/// How `CardCode::from_riftbound_id` reads a catalog id: the code, or the
/// text whose reading failed.
pub open spec fn code_of_id(id: Seq<char>) -> Result<CardCode, Seq<char>> {
    match split_once(id, seq!['-']) {
        None => Err(id),
        Some((set_text, rest)) => match set_of(set_text) {
            None => Err(id),
            Some(set) => {
                let text = set_name(set) + seq!['-'] + id_body(rest);
                match code_of(text) {
                    Some(c) => Ok(c),
                    None => Err(text),
                }
            },
        },
    }
}

/// The size a catalog id ends with, `298` in `opp-083-298`.
pub open spec fn set_total_of(id: Seq<char>) -> Option<u32> {
    match split_once(id, seq!['-']) {
        None => None,
        Some((_, rest)) => match rsplit_once(rest, seq!['-']) {
            None => None,
            Some((body, total)) => if body.len() == 0 || total.len() == 0 || !all_digits(total) {
                None
            } else {
                parse_u32(total)
            },
        },
    }
}

pub open spec fn base_print_spec(c: CardCode, total: Option<u32>) -> CardCode {
    if !is_reprint_set(c.set) {
        c
    } else {
        match total {
            Some(t) => match base_set_for_total(t) {
                Some(set) => CardCode { set, ..c },
                None => c,
            },
            None => c,
        }
    }
}

pub open spec fn base_print_of_id_spec(id: Seq<char>) -> Result<CardCode, Seq<char>> {
    match code_of_id(id) {
        Ok(c) => Ok(base_print_spec(c, set_total_of(id))),
        Err(e) => Err(e),
    }
}

fn variant_from(t: &[char]) -> (r: Option<Variant>)
    ensures
        r == variant_of(t@),
{
    if t.len() == 0 {
        return Some(Variant::Base);
    }
    if t.len() != 1 {
        assert(t@ != seq!['a'] && t@ != seq!['s'] && t@ != seq!['*'] && t@ != seq!['b']);
        return None;
    }
    let c = t[0];
    assert(t@ =~= seq![c]);
    if c == 'a' {
        Some(Variant::Alternate)
    } else if c == 's' || c == '*' {
        Some(Variant::Signed)
    } else if c == 'b' {
        Some(Variant::B)
    } else {
        None
    }
}

fn body_code(set: SetCode, rest: &[char]) -> (r: Option<CardCode>)
    ensures
        r == code_body(set, rest@),
{
    let ru = upper_all(rest);
    let sp = vec!['S', 'P'];
    let r1 = vec!['R'];
    assert(sp@ =~= seq!['S', 'P']);
    assert(r1@ =~= seq!['R']);
    let (kind, at): (u8, usize) = if starts_with(ru.as_slice(), sp.as_slice()) {
        (1, 2)
    } else if starts_with(ru.as_slice(), r1.as_slice()) {
        (2, 1)
    } else {
        (0, 0)
    };
    assert(number_kind(rest@) == (kind as int, at as int));
    let tail = slice(rest, at, rest.len());
    assert(tail@ =~= rest@.skip(at as int));
    let dl = digit_run_of(tail.as_slice());
    if dl == 0 {
        return None;
    }
    proof {
        lemma_digit_run(tail@);
    }
    let digits = slice(tail.as_slice(), 0, dl);
    assert(digits@ =~= tail@.take(dl as int));
    let value = match parse_u32_of(digits.as_slice()) {
        Some(v) => v,
        None => {
            return None;
        },
    };
    let after = slice(tail.as_slice(), dl, tail.len());
    assert(after@ =~= tail@.skip(dl as int));
    let variant = match variant_from(after.as_slice()) {
        Some(v) => v,
        None => {
            return None;
        },
    };
    let number = if kind == 1 {
        CardNumber::Special(value)
    } else if kind == 2 {
        CardNumber::Rune(value)
    } else {
        CardNumber::Normal(value)
    };
    Some(CardCode { set, number, variant })
}

/// The code a character sequence spells.
pub fn code_from_chars(text: &[char]) -> (r: Option<CardCode>)
    ensures
        r == code_of(text@),
{
    match split_once_char(text, '-') {
        None => None,
        Some((set_text, rest)) => match SetCode::parse_chars(set_text.as_slice()) {
            None => None,
            Some(set) => body_code(set, rest.as_slice()),
        },
    }
}

fn push_str(out: &mut Vec<char>, s: &str)
    ensures
        final(out)@ == old(out)@ + s@,
{
    let cs = chars_of(s);
    extend(out, cs.as_slice());
}

impl CardCode {
    pub fn parse(text: &str) -> (r: Result<Self, CardCodeError>)
        ensures
            match code_of(text@) {
                Some(c) => r == Ok::<CardCode, CardCodeError>(c),
                None => r matches Err(e) && e.input@ == text@,
            },
    {
        let cs = chars_of(text);
        match code_from_chars(cs.as_slice()) {
            Some(c) => Ok(c),
            None => Err(CardCodeError { input: text.to_owned() }),
        }
    }

    /// Reads a catalog id such as `ogn-045-298` or `ven-r01`.
    pub fn from_riftbound_id(id: &str) -> (r: Result<Self, CardCodeError>)
        ensures
            match code_of_id(id@) {
                Ok(c) => r == Ok::<CardCode, CardCodeError>(c),
                Err(input) => r matches Err(e) && e.input@ == input,
            },
    {
        let cs = chars_of(id);
        match Self::from_id_chars(cs.as_slice()) {
            Ok(c) => Ok(c),
            Err(input) => Err(CardCodeError { input: string_of(input.as_slice()) }),
        }
    }

    fn from_id_chars(id: &[char]) -> (r: Result<Self, Vec<char>>)
        ensures
            match code_of_id(id@) {
                Ok(c) => r == Ok::<CardCode, Vec<char>>(c),
                Err(input) => r matches Err(e) && e@ == input,
            },
    {
        let (set_text, rest) = match split_once_char(id, '-') {
            Some(p) => p,
            None => {
                return Err(copy(id));
            },
        };
        let set = match SetCode::parse_chars(set_text.as_slice()) {
            Some(s) => s,
            None => {
                return Err(copy(id));
            },
        };
        let body = match rsplit_once_char(rest.as_slice(), '-') {
            Some((body, size)) => if all_digits_in(size.as_slice()) && body.len() > 0 {
                body
            } else {
                rest
            },
            None => rest,
        };
        let mut text: Vec<char> = Vec::new();
        push_str(&mut text, set.as_str());
        text.push('-');
        extend(&mut text, body.as_slice());
        assert(text@ =~= set_name(set) + seq!['-'] + id_body(rest@));
        match code_from_chars(text.as_slice()) {
            Some(c) => Ok(c),
            None => Err(text),
        }
    }

    /// The base set's print of a reprint, as the id's set size names it.
    pub fn base_print(self, total: Option<u32>) -> (r: Self)
        ensures
            r == base_print_spec(self, total),
    {
        if !self.set.reprints_another_set() {
            return self;
        }
        match total {
            Some(t) => match SetCode::base_for_total(t) {
                Some(set) => CardCode { set, number: self.number, variant: self.variant },
                None => self,
            },
            None => self,
        }
    }

    pub fn base_print_of_id(id: &str) -> (r: Result<Self, CardCodeError>)
        ensures
            match base_print_of_id_spec(id@) {
                Ok(c) => r == Ok::<CardCode, CardCodeError>(c),
                Err(input) => r matches Err(e) && e.input@ == input,
            },
    {
        let code = Self::from_riftbound_id(id)?;
        Ok(code.base_print(set_total(id)))
    }

    pub fn number_text(&self) -> (r: String)
        ensures
            r@ == number_text(self.number),
    {
        let cs = self.number_chars();
        string_of(cs.as_slice())
    }

    pub fn number_chars(&self) -> (r: Vec<char>)
        ensures
            r@ == number_text(self.number),
    {
        let mut out: Vec<char> = Vec::new();
        match self.number {
            CardNumber::Normal(v) => push_padded(&mut out, v, 3),
            CardNumber::Rune(v) => {
                out.push('R');
                push_padded(&mut out, v, 2);
            },
            CardNumber::Special(v) => {
                out.push('S');
                out.push('P');
                push_decimal(&mut out, v);
            },
        }
        assert(out@ =~= number_text(self.number));
        out
    }

    /// The code as the catalog ids spell it: lowercase, signed prints as `*`.
    pub fn id_fragment(&self) -> (r: String)
        ensures
            r@ == id_fragment_text(*self),
    {
        let cs = self.id_fragment_chars();
        string_of(cs.as_slice())
    }

    pub fn id_fragment_chars(&self) -> (r: Vec<char>)
        ensures
            r@ == id_fragment_text(*self),
    {
        let set = chars_of(self.set.as_str());
        let mut out = lower_all(set.as_slice());
        out.push('-');
        let n = self.number_chars();
        let ln = lower_all(n.as_slice());
        extend(&mut out, ln.as_slice());
        push_str(&mut out, self.variant.id_suffix());
        assert(out@ =~= id_fragment_text(*self));
        out
    }

    /// The code as printed, `OGN-045`.
    pub fn to_text(&self) -> (r: String)
        ensures
            r@ == code_text(*self),
    {
        let cs = self.text_chars();
        string_of(cs.as_slice())
    }

    pub fn text_chars(&self) -> (r: Vec<char>)
        ensures
            r@ == code_text(*self),
    {
        let mut out = chars_of(self.set.as_str());
        out.push('-');
        let n = self.number_chars();
        extend(&mut out, n.as_slice());
        push_str(&mut out, self.variant.suffix());
        assert(out@ =~= code_text(*self));
        out
    }
}

/// The set size an id ends with.
pub fn set_total(id: &str) -> (r: Option<u32>)
    ensures
        r == set_total_of(id@),
{
    let cs = chars_of(id);
    let (_, rest) = match split_once_char(cs.as_slice(), '-') {
        Some(p) => p,
        None => {
            return None;
        },
    };
    let (body, total) = match rsplit_once_char(rest.as_slice(), '-') {
        Some(p) => p,
        None => {
            return None;
        },
    };
    if body.len() == 0 || total.len() == 0 || !all_digits_in(total.as_slice()) {
        return None;
    }
    parse_u32_of(total.as_slice())
}


/// A variant reads back from its printed suffix and from its id suffix.
pub proof fn lemma_variant_round_trip(v: Variant)
    ensures
        variant_of(variant_suffix(v)) == Some(v),
        variant_of(variant_id_suffix(v)) == Some(v),
        variant_from_wire(variant_wire(v)) == Some(v),
{
    let a = seq!['a'];
    let s = seq!['s'];
    let star = seq!['*'];
    let b = seq!['b'];
    assert(a[0] != s[0] && a[0] != star[0] && a[0] != b[0]);
    assert(s[0] != b[0] && star[0] != b[0]);
    assert(a != s && a != star && a != b && s != b && star != b);
}

proof fn lemma_body_digits(digits: Seq<char>, v: u32, suf: Seq<char>, variant: Variant)
    requires
        digits.len() > 0,
        all_digits(digits),
        digits_value(digits) == v,
        variant_of(suf) == Some(variant),
        suf.len() == 0 || !is_digit(suf[0]),
    ensures
        digit_run(digits + suf) == digits.len(),
        (digits + suf).take(digits.len() as int) == digits,
        (digits + suf).skip(digits.len() as int) == suf,
        parse_u32(digits) == Some(v),
{
    assert(is_digit(digits[0]));
    lemma_digit_run_concat(digits, suf);
    assert((digits + suf).take(digits.len() as int) =~= digits);
    assert((digits + suf).skip(digits.len() as int) =~= suf);
}

/// The number text, in either case, followed by either spelling of the
/// variant suffix, reads back as the code's number and variant.
#[verifier::rlimit(50)]
proof fn lemma_code_body(c: CardCode, lowered: bool, id_style: bool)
    ensures
        code_body(
            c.set,
            (if lowered { lower_seq(number_text(c.number)) } else { number_text(c.number) }) + (
            if id_style { variant_id_suffix(c.variant) } else { variant_suffix(c.variant) }),
        ) == Some(c),
{
    let nt = number_text(c.number);
    let head = if lowered { lower_seq(nt) } else { nt };
    let suf = if id_style { variant_id_suffix(c.variant) } else { variant_suffix(c.variant) };
    let rest = head + suf;
    lemma_variant_round_trip(c.variant);
    let ru = upper_seq(rest);
    match c.number {
        CardNumber::Normal(v) => {
            lemma_padded_digits(v as nat, 3);
            let d = padded(v as nat, 3);
            assert(head =~= d) by {
                assert forall|i: int| 0 <= i < d.len() implies #[trigger] head[i] == d[i] by {
                    assert(is_digit(d[i]));
                }
            }
            assert(is_digit(d[0]));
            assert(ru[0] == d[0]);
            assert(!starts(ru, seq!['S', 'P'])) by {
                if starts(ru, seq!['S', 'P']) {
                    assert(ru.take(2)[0] == 'S');
                }
            }
            assert(!starts(ru, seq!['R'])) by {
                if starts(ru, seq!['R']) {
                    assert(ru.take(1)[0] == 'R');
                }
            }
            assert(rest.skip(0) =~= d + suf);
            lemma_body_digits(d, v, suf, c.variant);
        },
        CardNumber::Rune(v) => {
            lemma_padded_digits(v as nat, 2);
            let d = padded(v as nat, 2);
            assert(head.drop_first() =~= d) by {
                assert forall|i: int| 0 <= i < d.len() implies #[trigger] head.drop_first()[i] == d[i] by {
                    assert(is_digit(d[i]));
                }
            }
            assert(is_digit(d[0]));
            assert(ru[0] == 'R');
            assert(ru[1] == d[0]);
            assert(!starts(ru, seq!['S', 'P'])) by {
                if starts(ru, seq!['S', 'P']) {
                    assert(ru.take(2)[1] == 'P');
                }
            }
            assert(ru.take(1) =~= seq!['R']);
            assert(rest.skip(1) =~= d + suf);
            lemma_body_digits(d, v, suf, c.variant);
        },
        CardNumber::Special(v) => {
            lemma_decimal_digits(v as nat);
            let d = decimal(v as nat);
            assert(head.skip(2) =~= d) by {
                assert forall|i: int| 0 <= i < d.len() implies #[trigger] head.skip(2)[i] == d[i] by {
                    assert(is_digit(d[i]));
                }
            }
            assert(ru[0] == 'S');
            assert(ru[1] == 'P');
            assert(ru.take(2) =~= seq!['S', 'P']);
            assert(rest.skip(2) =~= d + suf);
            lemma_body_digits(d, v, suf, c.variant);
        },
    }
}

/// A code reads back from its printed text.
pub proof fn lemma_code_text_round_trip(c: CardCode)
    ensures
        code_of(code_text(c)) == Some(c),
{
    let name = set_name(c.set);
    let rest = number_text(c.number) + variant_suffix(c.variant);
    let s = code_text(c);
    assert(s =~= name + seq!['-'] + rest);
    assert(lacks(name, '-'));
    lemma_find_char_concat(name, '-', rest);
    assert(s.take(name.len() as int) =~= name);
    assert(s.skip(name.len() as int + 1) =~= rest);
    lemma_set_round_trip(c.set);
    lemma_code_body(c, false, false);
}

/// A code reads back from the id fragment the catalog spells it with.
pub proof fn lemma_id_fragment_round_trip(c: CardCode)
    ensures
        code_of_id(id_fragment_text(c)) == Ok::<CardCode, Seq<char>>(c),
{
    let name = set_name(c.set);
    let lname = lower_seq(name);
    let nt = number_text(c.number);
    let rest = lower_seq(nt) + variant_id_suffix(c.variant);
    let id = id_fragment_text(c);
    assert(id =~= lname + seq!['-'] + rest);
    assert(lacks(lname, '-'));
    lemma_find_char_concat(lname, '-', rest);
    assert(id.take(lname.len() as int) =~= lname);
    assert(id.skip(lname.len() as int + 1) =~= rest);
    lemma_set_round_trip(c.set);
    assert(lacks(rest, '-')) by {
        assert forall|i: int| 0 <= i < rest.len() implies rest[i] != '-' by {
            if i < nt.len() {
                match c.number {
                    CardNumber::Normal(v) => {
                        lemma_padded_digits(v as nat, 3);
                        assert(is_digit(nt[i]));
                    },
                    CardNumber::Rune(v) => {
                        lemma_padded_digits(v as nat, 2);
                        if i > 0 {
                            assert(is_digit(padded(v as nat, 2)[i - 1]));
                        }
                    },
                    CardNumber::Special(v) => {
                        lemma_decimal_digits(v as nat);
                        if i > 1 {
                            assert(is_digit(decimal(v as nat)[i - 2]));
                        }
                    },
                }
            }
        }
    }
    lemma_rfind_char_none(rest, '-');
    let text = name + seq!['-'] + rest;
    assert(lacks(name, '-'));
    lemma_find_char_concat(name, '-', rest);
    assert(text.take(name.len() as int) =~= name);
    assert(text.skip(name.len() as int + 1) =~= rest);
    lemma_code_body(c, true, true);
}

} // verus!
