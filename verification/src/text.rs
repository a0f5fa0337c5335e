//! Character-sequence toolkit: the string operations the parsers use,
//! each stated over `Seq<char>`.
use vstd::prelude::*;

verus! {

/// `String::push` appends one character.
pub assume_specification[ String::push ](s: &mut String, ch: char)
    ensures
        final(s)@ == old(s)@.push(ch),
;

/// How `<char as Debug>::fmt` writes a character: quoted and escaped as
/// a character literal.
pub uninterp spec fn char_debug(c: char) -> Seq<char>;

/// How `<str as Debug>::fmt` writes a text: quoted and escaped as a string
/// literal.
pub uninterp spec fn str_debug(s: Seq<char>) -> Seq<char>;

/// `<char as Debug>::fmt`. The contract names the result: the same
/// character is always written the same way.
#[verifier::external_body]
pub fn debug_char(c: char) -> (r: String)
    ensures
        r@ == char_debug(c),
{
    format!("{c:?}")
}

/// `<str as Debug>::fmt`. The contract names the result: the same text is
/// always written the same way.
#[verifier::external_body]
pub fn debug_str(s: &str) -> (r: String)
    ensures
        r@ == str_debug(s@),
{
    format!("{s:?}")
}

// ---------------------------------------------------------------------------
// Character classes
// ---------------------------------------------------------------------------

pub open spec fn is_digit(c: char) -> bool {
    '0' <= c && c <= '9'
}

pub open spec fn is_upper(c: char) -> bool {
    'A' <= c && c <= 'Z'
}

pub open spec fn is_lower(c: char) -> bool {
    'a' <= c && c <= 'z'
}

pub open spec fn is_ascii_alnum(c: char) -> bool {
    is_digit(c) || is_upper(c) || is_lower(c)
}

/// Unicode `White_Space`, as `char::is_whitespace` documents it.
pub open spec fn is_ws(c: char) -> bool {
    c == ' ' || ('\t' <= c && c <= '\r') || c == '\u{85}' || c == '\u{a0}' || c == '\u{1680}'
        || ('\u{2000}' <= c && c <= '\u{200a}') || c == '\u{2028}' || c == '\u{2029}'
        || c == '\u{202f}' || c == '\u{205f}' || c == '\u{3000}'
}

pub open spec fn lower(c: char) -> char {
    if is_upper(c) {
        ((c as u32) + 32) as char
    } else {
        c
    }
}

pub open spec fn upper(c: char) -> char {
    if is_lower(c) {
        ((c as u32) - 32) as char
    } else {
        c
    }
}

pub open spec fn lower_seq(s: Seq<char>) -> Seq<char> {
    s.map_values(|c: char| lower(c))
}

pub open spec fn upper_seq(s: Seq<char>) -> Seq<char> {
    s.map_values(|c: char| upper(c))
}

pub open spec fn digit_char(d: nat) -> char {
    ((d + 48) as u32) as char
}

pub open spec fn digit_value(c: char) -> nat {
    ((c as u32) - 48) as nat
}

pub fn digit(c: char) -> (b: bool)
    ensures
        b == is_digit(c),
{
    '0' <= c && c <= '9'
}

pub fn ws(c: char) -> (b: bool)
    ensures
        b == is_ws(c),
{
    c == ' ' || ('\t' <= c && c <= '\r') || c == '\u{85}' || c == '\u{a0}' || c == '\u{1680}'
        || ('\u{2000}' <= c && c <= '\u{200a}') || c == '\u{2028}' || c == '\u{2029}'
        || c == '\u{202f}' || c == '\u{205f}' || c == '\u{3000}'
}

pub fn ascii_alnum(c: char) -> (b: bool)
    ensures
        b == is_ascii_alnum(c),
{
    ('0' <= c && c <= '9') || ('A' <= c && c <= 'Z') || ('a' <= c && c <= 'z')
}

pub fn to_lower(c: char) -> (out: char)
    ensures
        out == lower(c),
{
    if 'A' <= c && c <= 'Z' {
        let b = (c as u32) as u8;
        assert(b as u32 == c as u32);
        ((b + 32) as char)
    } else {
        c
    }
}

pub fn to_upper(c: char) -> (out: char)
    ensures
        out == upper(c),
{
    if 'a' <= c && c <= 'z' {
        let b = (c as u32) as u8;
        assert(b as u32 == c as u32);
        ((b - 32) as char)
    } else {
        c
    }
}

pub fn lower_all(s: &[char]) -> (out: Vec<char>)
    ensures
        out@ == lower_seq(s@),
{
    let mut out: Vec<char> = Vec::new();
    let mut i: usize = 0;
    while i < s.len()
        invariant
            i <= s@.len(),
            out@ =~= lower_seq(s@.take(i as int)),
        decreases s@.len() - i,
    {
        out.push(to_lower(s[i]));
        i = i + 1;
        assert(out@ =~= lower_seq(s@.take(i as int)));
    }
    assert(s@.take(i as int) =~= s@);
    out
}

pub fn upper_all(s: &[char]) -> (out: Vec<char>)
    ensures
        out@ == upper_seq(s@),
{
    let mut out: Vec<char> = Vec::new();
    let mut i: usize = 0;
    while i < s.len()
        invariant
            i <= s@.len(),
            out@ =~= upper_seq(s@.take(i as int)),
        decreases s@.len() - i,
    {
        out.push(to_upper(s[i]));
        i = i + 1;
        assert(out@ =~= upper_seq(s@.take(i as int)));
    }
    assert(s@.take(i as int) =~= s@);
    out
}

// ---------------------------------------------------------------------------
// Conversions between `str`, `String` and character vectors
// ---------------------------------------------------------------------------

/// The characters of `s`, in order.
pub fn chars_of(s: &str) -> (out: Vec<char>)
    ensures
        out@ == s@,
{
    let mut out: Vec<char> = Vec::new();
    for c in it: s.chars()
        invariant
            out@ == it.seq().take(it.index() as int),
            it.seq() == s@,
    {
        out.push(c);
    }
    out
}

/// A `String` holding exactly the given characters.
pub fn string_of(cs: &[char]) -> (out: String)
    ensures
        out@ == cs@,
{
    let mut out = String::new();
    let mut i: usize = 0;
    while i < cs.len()
        invariant
            i <= cs@.len(),
            out@ == cs@.take(i as int),
        decreases cs@.len() - i,
    {
        out.push(cs[i]);
        assert(cs@.take(i as int).push(cs@[i as int]) =~= cs@.take(i as int + 1));
        i = i + 1;
    }
    assert(cs@.take(i as int) =~= cs@);
    out
}

/// Appends `more` to `out`.
pub fn extend(out: &mut Vec<char>, more: &[char])
    ensures
        final(out)@ == old(out)@ + more@,
{
    let mut i: usize = 0;
    while i < more.len()
        invariant
            i <= more@.len(),
            out@ == old(out)@ + more@.take(i as int),
        decreases more@.len() - i,
    {
        out.push(more[i]);
        i = i + 1;
        assert(out@ =~= old(out)@ + more@.take(i as int));
    }
    assert(more@.take(i as int) =~= more@);
}

/// The characters of `s` from `from` up to `to`.
pub fn slice(s: &[char], from: usize, to: usize) -> (out: Vec<char>)
    requires
        from <= to <= s@.len(),
    ensures
        out@ == s@.subrange(from as int, to as int),
{
    let mut out: Vec<char> = Vec::new();
    let mut i: usize = from;
    while i < to
        invariant
            from <= i <= to <= s@.len(),
            out@ == s@.subrange(from as int, i as int),
        decreases to - i,
    {
        out.push(s[i]);
        i = i + 1;
        assert(out@ =~= s@.subrange(from as int, i as int));
    }
    out
}

pub fn copy(s: &[char]) -> (out: Vec<char>)
    ensures
        out@ == s@,
{
    let out = slice(s, 0, s.len());
    assert(s@.subrange(0, s@.len() as int) =~= s@);
    out
}

/// Whether `a` and `b` hold the same characters.
pub fn same(a: &[char], b: &[char]) -> (r: bool)
    ensures
        r == (a@ == b@),
{
    if a.len() != b.len() {
        return false;
    }
    let mut i: usize = 0;
    while i < a.len()
        invariant
            a@.len() == b@.len(),
            i <= a@.len(),
            forall|j: int| 0 <= j < i ==> a@[j] == b@[j],
        decreases a@.len() - i,
    {
        if a[i] != b[i] {
            return false;
        }
        i = i + 1;
    }
    assert(a@ =~= b@);
    true
}

/// Whether `s` equals the string `lit`.
pub fn is(s: &[char], lit: &str) -> (r: bool)
    ensures
        r == (s@ == lit@),
{
    let l = chars_of(lit);
    same(s, l.as_slice())
}

// ---------------------------------------------------------------------------
// Prefixes, suffixes, searching
// ---------------------------------------------------------------------------

pub open spec fn starts(s: Seq<char>, p: Seq<char>) -> bool {
    p.len() <= s.len() && s.take(p.len() as int) == p
}

pub open spec fn ends(s: Seq<char>, p: Seq<char>) -> bool {
    p.len() <= s.len() && s.skip(s.len() - p.len()) == p
}

pub fn starts_with(s: &[char], p: &[char]) -> (r: bool)
    ensures
        r == starts(s@, p@),
{
    if p.len() > s.len() {
        return false;
    }
    let mut i: usize = 0;
    while i < p.len()
        invariant
            p@.len() <= s@.len(),
            i <= p@.len(),
            forall|j: int| 0 <= j < i ==> s@[j] == p@[j],
        decreases p@.len() - i,
    {
        if s[i] != p[i] {
            assert(s@.take(p@.len() as int)[i as int] != p@[i as int]);
            return false;
        }
        i = i + 1;
    }
    assert(s@.take(p@.len() as int) =~= p@);
    true
}

pub fn starts_with_str(s: &[char], p: &str) -> (r: bool)
    ensures
        r == starts(s@, p@),
{
    let pc = chars_of(p);
    starts_with(s, pc.as_slice())
}

pub fn ends_with(s: &[char], p: &[char]) -> (r: bool)
    ensures
        r == ends(s@, p@),
{
    if p.len() > s.len() {
        return false;
    }
    let off = s.len() - p.len();
    let mut i: usize = 0;
    while i < p.len()
        invariant
            p.len() <= s.len(),
            off == s.len() - p.len(),
            i <= p.len(),
            forall|j: int| 0 <= j < i ==> s@[off + j] == p@[j],
        decreases p@.len() - i,
    {
        if s[off + i] != p[i] {
            assert(s@.skip(off as int)[i as int] != p@[i as int]);
            return false;
        }
        i = i + 1;
    }
    assert(s@.skip(off as int) =~= p@);
    true
}

pub fn ends_with_str(s: &[char], p: &str) -> (r: bool)
    ensures
        r == ends(s@, p@),
{
    let pc = chars_of(p);
    ends_with(s, pc.as_slice())
}

/// `p` occurs in `s` at `i`.
pub open spec fn occurs_at(s: Seq<char>, p: Seq<char>, i: int) -> bool {
    0 <= i && i + p.len() <= s.len() && s.subrange(i, i + p.len()) == p
}

/// The first occurrence of `p` in `s` at or after `i`.
pub open spec fn find_from(s: Seq<char>, p: Seq<char>, i: int) -> Option<int>
    decreases s.len() - i,
{
    if i < 0 || i + p.len() > s.len() {
        None
    } else if occurs_at(s, p, i) {
        Some(i)
    } else if i >= s.len() {
        None
    } else {
        find_from(s, p, i + 1)
    }
}

/// The first occurrence of `p` in `s`, as `str::find` reports it.
pub open spec fn find(s: Seq<char>, p: Seq<char>) -> Option<int> {
    find_from(s, p, 0)
}

/// The last occurrence of `p` in `s` that starts at or before `i`.
pub open spec fn rfind_upto(s: Seq<char>, p: Seq<char>, i: int) -> Option<int>
    decreases i + 1,
{
    if i < 0 {
        None
    } else if occurs_at(s, p, i) {
        Some(i)
    } else {
        rfind_upto(s, p, i - 1)
    }
}

/// The last occurrence of `p` in `s`, as `str::rfind` reports it.
pub open spec fn rfind(s: Seq<char>, p: Seq<char>) -> Option<int> {
    rfind_upto(s, p, s.len() - p.len())
}

pub proof fn lemma_find_from_bounds(s: Seq<char>, p: Seq<char>, i: int)
    ensures
        find_from(s, p, i) matches Some(k) ==> i <= k && occurs_at(s, p, k),
    decreases s.len() - i,
{
    if !(i < 0 || i + p.len() > s.len()) && !occurs_at(s, p, i) && i < s.len() {
        lemma_find_from_bounds(s, p, i + 1);
    }
}

pub proof fn lemma_rfind_upto_bounds(s: Seq<char>, p: Seq<char>, i: int)
    ensures
        rfind_upto(s, p, i) matches Some(k) ==> k <= i && occurs_at(s, p, k),
    decreases i + 1,
{
    if i >= 0 && !occurs_at(s, p, i) {
        lemma_rfind_upto_bounds(s, p, i - 1);
    }
}

pub fn occurs(s: &[char], p: &[char], i: usize) -> (r: bool)
    ensures
        r == occurs_at(s@, p@, i as int),
{
    if p.len() > s.len() || i > s.len() - p.len() {
        return false;
    }
    let mut j: usize = 0;
    while j < p.len()
        invariant
            i + p.len() <= s.len(),
            j <= p.len(),
            forall|k: int| 0 <= k < j ==> s@[i + k] == p@[k],
        decreases p@.len() - j,
    {
        if s[i + j] != p[j] {
            assert(s@.subrange(i as int, i + p@.len())[j as int] != p@[j as int]);
            return false;
        }
        j = j + 1;
    }
    assert(s@.subrange(i as int, i + p@.len()) =~= p@);
    true
}

/// The first occurrence of `p` in `s` at or after `from`.
pub fn find_at(s: &[char], p: &[char], from: usize) -> (r: Option<usize>)
    ensures
        r matches Some(k) ==> find_from(s@, p@, from as int) == Some(k as int),
        r is None ==> find_from(s@, p@, from as int) is None,
{
    if p.len() > s.len() || from > s.len() - p.len() {
        return None;
    }
    if p.len() == 0 {
        assert(s@.subrange(from as int, from as int) =~= p@);
        return Some(from);
    }
    let last = s.len() - p.len();
    let mut i: usize = from;
    while i <= last
        invariant
            0 < p.len() <= s.len(),
            last == s.len() - p.len(),
            from <= i,
            i <= last + 1,
            find_from(s@, p@, from as int) == find_from(s@, p@, i as int),
        decreases last + 1 - i,
    {
        if occurs(s, p, i) {
            return Some(i);
        }
        i = i + 1;
    }
    None
}

pub fn find_in(s: &[char], p: &[char]) -> (r: Option<usize>)
    ensures
        r matches Some(k) ==> find(s@, p@) == Some(k as int),
        r is None ==> find(s@, p@) is None,
{
    find_at(s, p, 0)
}

pub fn find_str(s: &[char], p: &str) -> (r: Option<usize>)
    ensures
        r matches Some(k) ==> find(s@, p@) == Some(k as int),
        r is None ==> find(s@, p@) is None,
{
    let pc = chars_of(p);
    find_at(s, pc.as_slice(), 0)
}

pub fn find_char(s: &[char], c: char) -> (r: Option<usize>)
    ensures
        r matches Some(k) ==> find(s@, seq![c]) == Some(k as int),
        r is None ==> find(s@, seq![c]) is None,
{
    let p = vec![c];
    assert(p@ =~= seq![c]);
    find_at(s, p.as_slice(), 0)
}

pub fn rfind_in(s: &[char], p: &[char]) -> (r: Option<usize>)
    ensures
        r matches Some(k) ==> rfind(s@, p@) == Some(k as int),
        r is None ==> rfind(s@, p@) is None,
{
    if p.len() > s.len() {
        return None;
    }
    if p.len() == 0 {
        assert(s@.subrange(s@.len() as int, s@.len() as int) =~= p@);
        assert(occurs_at(s@, p@, s@.len() as int));
        return Some(s.len());
    }
    let mut i: usize = s.len() - p.len() + 1;
    while i > 0
        invariant
            0 < p.len() <= s.len(),
            i <= s.len() - p.len() + 1,
            rfind(s@, p@) == rfind_upto(s@, p@, i - 1),
        decreases i,
    {
        if occurs(s, p, i - 1) {
            return Some(i - 1);
        }
        i = i - 1;
    }
    None
}

pub fn rfind_char(s: &[char], c: char) -> (r: Option<usize>)
    ensures
        r matches Some(k) ==> rfind(s@, seq![c]) == Some(k as int),
        r is None ==> rfind(s@, seq![c]) is None,
{
    let p = vec![c];
    assert(p@ =~= seq![c]);
    rfind_in(s, p.as_slice())
}

// ---------------------------------------------------------------------------
// Trimming
// ---------------------------------------------------------------------------

pub open spec fn trim_start(s: Seq<char>) -> Seq<char>
    decreases s.len(),
{
    if s.len() > 0 && is_ws(s[0]) {
        trim_start(s.drop_first())
    } else {
        s
    }
}

pub open spec fn trim_end(s: Seq<char>) -> Seq<char>
    decreases s.len(),
{
    if s.len() > 0 && is_ws(s.last()) {
        trim_end(s.drop_last())
    } else {
        s
    }
}

pub open spec fn trim(s: Seq<char>) -> Seq<char> {
    trim_end(trim_start(s))
}

/// Whether every character of `s` is white space.
pub open spec fn all_ws(s: Seq<char>) -> bool {
    forall|i: int| 0 <= i < s.len() ==> is_ws(#[trigger] s[i])
}

/// Leading white space is dropped whatever follows it.
pub proof fn lemma_trim_start_skips(pad: Seq<char>, s: Seq<char>)
    requires
        all_ws(pad),
    ensures
        trim_start(pad + s) == trim_start(s),
    decreases pad.len(),
{
    if pad.len() > 0 {
        assert((pad + s)[0] == pad[0]);
        assert((pad + s).drop_first() =~= pad.drop_first() + s);
        lemma_trim_start_skips(pad.drop_first(), s);
    } else {
        assert(pad + s =~= s);
    }
}

/// Trailing white space is dropped whatever comes before it.
pub proof fn lemma_trim_end_skips(s: Seq<char>, pad: Seq<char>)
    requires
        all_ws(pad),
    ensures
        trim_end(s + pad) == trim_end(s),
    decreases pad.len(),
{
    if pad.len() > 0 {
        assert((s + pad).last() == pad.last());
        assert((s + pad).drop_last() =~= s + pad.drop_last());
        lemma_trim_end_skips(s, pad.drop_last());
    } else {
        assert(s + pad =~= s);
    }
}

/// Trimming the start of `s + pad`, for trailing white space `pad`.
pub proof fn lemma_trim_start_then(s: Seq<char>, pad: Seq<char>)
    requires
        all_ws(pad),
    ensures
        trim_start(s + pad) == if trim_start(s).len() > 0 {
            trim_start(s) + pad
        } else {
            trim_start(pad)
        },
    decreases s.len(),
{
    if s.len() > 0 {
        assert((s + pad)[0] == s[0]);
        if is_ws(s[0]) {
            assert((s + pad).drop_first() =~= s.drop_first() + pad);
            lemma_trim_start_then(s.drop_first(), pad);
        }
    } else {
        assert(s + pad =~= pad);
    }
}

/// What is left of white space once trimmed: nothing.
pub proof fn lemma_trim_all_ws(pad: Seq<char>)
    requires
        all_ws(pad),
    ensures
        trim_start(pad).len() == 0,
    decreases pad.len(),
{
    if pad.len() > 0 {
        lemma_trim_all_ws(pad.drop_first());
    }
}

/// White space around a text does not change it once trimmed.
pub proof fn lemma_trim_padded(before: Seq<char>, s: Seq<char>, after: Seq<char>)
    requires
        all_ws(before),
        all_ws(after),
    ensures
        trim(before + s + after) == trim(s),
{
    assert(before + s + after =~= before + (s + after));
    lemma_trim_start_skips(before, s + after);
    lemma_trim_start_then(s, after);
    if trim_start(s).len() > 0 {
        lemma_trim_end_skips(trim_start(s), after);
    } else {
        lemma_trim_all_ws(after);
        assert(trim_start(s) =~= Seq::<char>::empty());
        assert(trim_start(after) =~= Seq::<char>::empty());
    }
}

/// Lower-casing keeps white space as it is.
pub proof fn lemma_trim_lower(s: Seq<char>)
    ensures
        trim(lower_seq(s)) == lower_seq(trim(s)),
{
    lemma_trim_start_lower(s);
    lemma_trim_end_lower(trim_start(s));
}

proof fn lemma_trim_start_lower(s: Seq<char>)
    ensures
        trim_start(lower_seq(s)) == lower_seq(trim_start(s)),
    decreases s.len(),
{
    if s.len() > 0 {
        assert(lower_seq(s)[0] == lower(s[0]));
        assert(lower_seq(s).drop_first() =~= lower_seq(s.drop_first()));
        lemma_trim_start_lower(s.drop_first());
    }
}

proof fn lemma_trim_end_lower(s: Seq<char>)
    ensures
        trim_end(lower_seq(s)) == lower_seq(trim_end(s)),
    decreases s.len(),
{
    if s.len() > 0 {
        assert(lower_seq(s).last() == lower(s.last()));
        assert(lower_seq(s).drop_last() =~= lower_seq(s.drop_last()));
        lemma_trim_end_lower(s.drop_last());
    }
}

pub proof fn lemma_trim_start_suffix(s: Seq<char>)
    ensures
        trim_start(s).len() <= s.len(),
        trim_start(s) == s.skip(s.len() - trim_start(s).len()),
        trim_start(s).len() > 0 ==> !is_ws(trim_start(s)[0]),
    decreases s.len(),
{
    if s.len() > 0 && is_ws(s[0]) {
        lemma_trim_start_suffix(s.drop_first());
        assert(s.drop_first().skip(s.drop_first().len() - trim_start(s.drop_first()).len())
            =~= s.skip(s.len() - trim_start(s).len()));
    } else {
        assert(s.skip(0) =~= s);
    }
}

pub proof fn lemma_trim_end_prefix(s: Seq<char>)
    ensures
        trim_end(s).len() <= s.len(),
        trim_end(s) == s.take(trim_end(s).len() as int),
        trim_end(s).len() > 0 ==> !is_ws(trim_end(s).last()),
    decreases s.len(),
{
    if s.len() > 0 && is_ws(s.last()) {
        lemma_trim_end_prefix(s.drop_last());
        assert(s.drop_last().take(trim_end(s.drop_last()).len() as int) =~= s.take(
            trim_end(s).len() as int,
        ));
    } else {
        assert(s.take(s.len() as int) =~= s);
    }
}

/// Index of the first character of `s` that is not white space.
fn start_of_text(s: &[char]) -> (k: usize)
    ensures
        k <= s@.len(),
        trim_start(s@) == s@.skip(k as int),
{
    let mut i: usize = 0;
    assert(s@.skip(0) =~= s@);
    while i < s.len() && ws(s[i])
        invariant
            i <= s@.len(),
            trim_start(s@) == trim_start(s@.skip(i as int)),
        decreases s@.len() - i,
    {
        assert(s@.skip(i as int).drop_first() =~= s@.skip(i as int + 1));
        i = i + 1;
    }
    i
}

/// Index just past the last character of `s` that is not white space.
fn end_of_text(s: &[char]) -> (k: usize)
    ensures
        k <= s@.len(),
        trim_end(s@) == s@.take(k as int),
{
    let mut i: usize = s.len();
    assert(s@.take(s@.len() as int) =~= s@);
    while i > 0 && ws(s[i - 1])
        invariant
            i <= s@.len(),
            trim_end(s@) == trim_end(s@.take(i as int)),
        decreases i,
    {
        assert(s@.take(i as int).drop_last() =~= s@.take(i as int - 1));
        i = i - 1;
    }
    i
}

pub fn trim_start_of(s: &[char]) -> (out: Vec<char>)
    ensures
        out@ == trim_start(s@),
{
    let k = start_of_text(s);
    let out = slice(s, k, s.len());
    assert(s@.subrange(k as int, s@.len() as int) =~= s@.skip(k as int));
    out
}

pub fn trim_end_of(s: &[char]) -> (out: Vec<char>)
    ensures
        out@ == trim_end(s@),
{
    let k = end_of_text(s);
    let out = slice(s, 0, k);
    assert(s@.subrange(0, k as int) =~= s@.take(k as int));
    out
}

pub fn trim_of(s: &[char]) -> (out: Vec<char>)
    ensures
        out@ == trim(s@),
{
    let a = trim_start_of(s);
    trim_end_of(a.as_slice())
}

// ---------------------------------------------------------------------------
// Splitting
// ---------------------------------------------------------------------------

/// `str::split_once` on a pattern.
pub open spec fn split_once(s: Seq<char>, p: Seq<char>) -> Option<(Seq<char>, Seq<char>)> {
    match find(s, p) {
        Some(k) => Some((s.take(k), s.skip(k + p.len()))),
        None => None,
    }
}

/// `str::rsplit_once` on a pattern.
pub open spec fn rsplit_once(s: Seq<char>, p: Seq<char>) -> Option<(Seq<char>, Seq<char>)> {
    match rfind(s, p) {
        Some(k) => Some((s.take(k), s.skip(k + p.len()))),
        None => None,
    }
}

pub fn split_once_at(s: &[char], p: &[char]) -> (r: Option<(Vec<char>, Vec<char>)>)
    ensures
        match r {
            Some((a, b)) => split_once(s@, p@) == Some((a@, b@)),
            None => split_once(s@, p@) is None,
        },
{
    match find_in(s, p) {
        Some(k) => {
            proof {
                lemma_find_from_bounds(s@, p@, 0);
                assert(s@.len() == s.len());
            }
            let a = slice(s, 0, k);
            let b = slice(s, k + p.len(), s.len());
            assert(s@.subrange(0, k as int) =~= s@.take(k as int));
            assert(s@.subrange(k + p@.len(), s@.len() as int) =~= s@.skip(k + p@.len()));
            Some((a, b))
        },
        None => None,
    }
}

pub fn split_once_char(s: &[char], c: char) -> (r: Option<(Vec<char>, Vec<char>)>)
    ensures
        match r {
            Some((a, b)) => split_once(s@, seq![c]) == Some((a@, b@)),
            None => split_once(s@, seq![c]) is None,
        },
{
    let p = vec![c];
    assert(p@ =~= seq![c]);
    split_once_at(s, p.as_slice())
}

pub fn rsplit_once_at(s: &[char], p: &[char]) -> (r: Option<(Vec<char>, Vec<char>)>)
    ensures
        match r {
            Some((a, b)) => rsplit_once(s@, p@) == Some((a@, b@)),
            None => rsplit_once(s@, p@) is None,
        },
{
    match rfind_in(s, p) {
        Some(k) => {
            proof {
                lemma_rfind_upto_bounds(s@, p@, s@.len() - p@.len());
                assert(s@.len() == s.len());
            }
            let a = slice(s, 0, k);
            let b = slice(s, k + p.len(), s.len());
            assert(s@.subrange(0, k as int) =~= s@.take(k as int));
            assert(s@.subrange(k + p@.len(), s@.len() as int) =~= s@.skip(k + p@.len()));
            Some((a, b))
        },
        None => None,
    }
}

pub fn rsplit_once_char(s: &[char], c: char) -> (r: Option<(Vec<char>, Vec<char>)>)
    ensures
        match r {
            Some((a, b)) => rsplit_once(s@, seq![c]) == Some((a@, b@)),
            None => rsplit_once(s@, seq![c]) is None,
        },
{
    let p = vec![c];
    assert(p@ =~= seq![c]);
    rsplit_once_at(s, p.as_slice())
}

/// State of a left-to-right split on a separator class: the pieces
/// closed so far and the piece being read.
pub open spec fn split_step(
    state: (Seq<Seq<char>>, Seq<char>),
    c: char,
    sep: spec_fn(char) -> bool,
    keep_empty: bool,
) -> (Seq<Seq<char>>, Seq<char>) {
    if sep(c) {
        if keep_empty || state.1.len() > 0 {
            (state.0.push(state.1), Seq::empty())
        } else {
            (state.0, Seq::empty())
        }
    } else {
        (state.0, state.1.push(c))
    }
}

pub open spec fn split_fold(
    s: Seq<char>,
    sep: spec_fn(char) -> bool,
    keep_empty: bool,
) -> (Seq<Seq<char>>, Seq<char>)
    decreases s.len(),
{
    if s.len() == 0 {
        (Seq::empty(), Seq::empty())
    } else {
        split_step(split_fold(s.drop_last(), sep, keep_empty), s.last(), sep, keep_empty)
    }
}

/// `str::split_whitespace`: the maximal runs of non-white-space characters.
pub open spec fn words(s: Seq<char>) -> Seq<Seq<char>> {
    let st = split_fold(s, |c: char| is_ws(c), false);
    if st.1.len() > 0 {
        st.0.push(st.1)
    } else {
        st.0
    }
}

/// Tokens joined by single spaces.
pub open spec fn spaced(ts: Seq<Seq<char>>) -> Seq<char>
    decreases ts.len(),
{
    if ts.len() == 0 {
        Seq::empty()
    } else if ts.len() == 1 {
        ts[0]
    } else {
        spaced(ts.drop_last()) + seq![' '] + ts.last()
    }
}

/// Pieces joined by single spaces, as `join(" ")` writes them.
pub fn join_spaced(ps: &Vec<Vec<char>>) -> (out: Vec<char>)
    ensures
        out@ == spaced(views(ps@)),
{
    let mut out: Vec<char> = Vec::new();
    let mut k: usize = 0;
    while k < ps.len()
        invariant
            k <= ps@.len(),
            out@ == spaced(views(ps@).take(k as int)),
        decreases ps@.len() - k,
    {
        if k > 0 {
            out.push(' ');
        }
        extend(&mut out, ps[k].as_slice());
        assert(views(ps@).take(k as int + 1).drop_last() =~= views(ps@).take(k as int));
        assert(views(ps@)[k as int] == ps@[k as int]@);
        k = k + 1;
        assert(out@ =~= spaced(views(ps@).take(k as int)));
    }
    assert(views(ps@).take(k as int) =~= views(ps@));
    out
}

/// `str::split` on one character: every piece, empty ones included.
pub open spec fn pieces(s: Seq<char>, c: char) -> Seq<Seq<char>> {
    let st = split_fold(s, |x: char| x == c, true);
    st.0.push(st.1)
}

pub open spec fn strip_cr(line: Seq<char>) -> Seq<char> {
    if line.len() > 0 && line.last() == '\r' {
        line.drop_last()
    } else {
        line
    }
}

/// `str::lines`: split at line feeds, without a final empty line, each line
/// losing one trailing carriage return.
pub open spec fn lines(s: Seq<char>) -> Seq<Seq<char>> {
    let st = split_fold(s, |x: char| x == '\n', true);
    let raw = if st.1.len() > 0 {
        st.0.push(st.1)
    } else {
        st.0
    };
    raw.map_values(|l: Seq<char>| strip_cr(l))
}

/// Lines joined by line feeds.
pub open spec fn joined_lines(ls: Seq<Seq<char>>) -> Seq<char>
    decreases ls.len(),
{
    if ls.len() == 0 {
        Seq::empty()
    } else if ls.len() == 1 {
        ls[0]
    } else {
        joined_lines(ls.drop_last()) + seq!['\n'] + ls.last()
    }
}

/// The split state after reading `b` from `state`.
pub open spec fn split_from(
    state: (Seq<Seq<char>>, Seq<char>),
    b: Seq<char>,
    sep: spec_fn(char) -> bool,
    keep_empty: bool,
) -> (Seq<Seq<char>>, Seq<char>)
    decreases b.len(),
{
    if b.len() == 0 {
        state
    } else {
        split_step(split_from(state, b.drop_last(), sep, keep_empty), b.last(), sep, keep_empty)
    }
}

proof fn lemma_split_concat(a: Seq<char>, b: Seq<char>, sep: spec_fn(char) -> bool, keep_empty: bool)
    ensures
        split_fold(a + b, sep, keep_empty) == split_from(split_fold(a, sep, keep_empty), b, sep, keep_empty),
    decreases b.len(),
{
    if b.len() == 0 {
        assert(a + b =~= a);
    } else {
        lemma_split_concat(a, b.drop_last(), sep, keep_empty);
        assert((a + b).drop_last() =~= a + b.drop_last());
        assert((a + b).last() == b.last());
    }
}

proof fn lemma_split_plain(state: (Seq<Seq<char>>, Seq<char>), b: Seq<char>, sep: spec_fn(char) -> bool, keep_empty: bool)
    requires
        forall|i: int| 0 <= i < b.len() ==> !sep(#[trigger] b[i]),
    ensures
        split_from(state, b, sep, keep_empty) == (state.0, state.1 + b),
    decreases b.len(),
{
    if b.len() == 0 {
        assert(state.1 + b =~= state.1);
    } else {
        assert forall|i: int| 0 <= i < b.drop_last().len() implies !sep(#[trigger] b.drop_last()[i]) by {
            assert(b.drop_last()[i] == b[i]);
        }
        lemma_split_plain(state, b.drop_last(), sep, keep_empty);
        assert(!sep(b[b.len() - 1]));
        assert((state.1 + b.drop_last()).push(b.last()) =~= state.1 + b);
    }
}

/// Whether a line holds no line feed and does not end in a carriage return.
pub open spec fn plain_line(l: Seq<char>) -> bool {
    (forall|i: int| 0 <= i < l.len() ==> #[trigger] l[i] != '\n') && !(l.len() > 0 && l.last() == '\r')
}

proof fn lemma_split_joined(m: Seq<Seq<char>>)
    requires
        m.len() >= 1,
        forall|i: int| 0 <= i < m.len() ==> plain_line(#[trigger] m[i]),
    ensures
        split_fold(joined_lines(m), |x: char| x == '\n', true) == (m.drop_last(), m.last()),
    decreases m.len(),
{
    if m.len() == 1 {
        assert(Seq::<char>::empty() + m[0] =~= m[0]);
        lemma_split_concat(Seq::<char>::empty(), m[0], |x: char| x == '\n', true);
        lemma_split_plain((Seq::<Seq<char>>::empty(), Seq::<char>::empty()), m[0], |x: char| x == '\n', true);
        assert(Seq::<char>::empty() + m[0] =~= m[0]);
        assert(m.drop_last() =~= Seq::<Seq<char>>::empty());
        assert(m.last() == m[0]);
        assert(split_fold(Seq::<char>::empty(), |x: char| x == '\n', true) == (Seq::<Seq<char>>::empty(), Seq::<char>::empty()));
        assert(joined_lines(m) == m[0]);
    } else {
        let p = m.drop_last();
        assert forall|i: int| 0 <= i < p.len() implies plain_line(#[trigger] p[i]) by {
            assert(p[i] == m[i]);
        }
        lemma_split_joined(p);
        let j = joined_lines(p);
        assert(plain_line(m[m.len() - 1]));
        lemma_split_concat(j + seq!['\n'], m.last(), |x: char| x == '\n', true);
        lemma_split_concat(j, seq!['\n'], |x: char| x == '\n', true);
        assert(seq!['\n'].drop_last() =~= Seq::<char>::empty());
        assert(p.drop_last().push(p.last()) =~= p);
        lemma_split_plain((p, Seq::<char>::empty()), m.last(), |x: char| x == '\n', true);
        assert(Seq::<char>::empty() + m.last() =~= m.last());
        assert(joined_lines(m) == j + seq!['\n'] + m.last());
        let st = split_fold(j, |x: char| x == '\n', true);
        assert(st == (p.drop_last(), p.last()));
        assert(seq!['\n'].last() == '\n');
        assert(split_from(st, seq!['\n'].drop_last(), |x: char| x == '\n', true) == st);
        assert(split_step(st, '\n', |x: char| x == '\n', true) == (st.0.push(st.1), Seq::<char>::empty()));
        assert(split_from(st, seq!['\n'], |x: char| x == '\n', true) == (p, Seq::<char>::empty()));
    }
}

/// The lines of lines joined by line feeds are those lines, without a last
/// empty one.
pub proof fn lemma_lines_of_joined(m: Seq<Seq<char>>)
    requires
        m.len() >= 1,
        forall|i: int| 0 <= i < m.len() ==> plain_line(#[trigger] m[i]),
    ensures
        lines(joined_lines(m)) == if m.last().len() > 0 {
            m
        } else {
            m.drop_last()
        },
{
    lemma_split_joined(m);
    let raw = if m.last().len() > 0 { m } else { m.drop_last() };
    if m.last().len() > 0 {
        assert(m.drop_last().push(m.last()) =~= m);
    }
    assert forall|i: int| 0 <= i < raw.len() implies strip_cr(#[trigger] raw[i]) == raw[i] by {
        assert(raw[i] == m[i]);
    }
    assert(raw.map_values(|l: Seq<char>| strip_cr(l)) =~= raw);
}

/// Splits `s` at the characters `sep` picks out.
fn split_by(s: &[char], mode: u8, c: char, keep_empty: bool) -> (out: (Vec<Vec<char>>, Vec<char>))
    requires
        mode <= 2,
    ensures
        out.0@.map_values(|v: Vec<char>| v@) == split_fold(s@, sep_of(mode, c), keep_empty).0,
        out.1@ == split_fold(s@, sep_of(mode, c), keep_empty).1,
{
    let ghost sep = sep_of(mode, c);
    let mut done: Vec<Vec<char>> = Vec::new();
    let mut cur: Vec<char> = Vec::new();
    let mut i: usize = 0;
    while i < s.len()
        invariant
            i <= s@.len(),
            mode <= 2,
            sep == sep_of(mode, c),
            done@.map_values(|v: Vec<char>| v@) == split_fold(s@.take(i as int), sep, keep_empty).0,
            cur@ == split_fold(s@.take(i as int), sep, keep_empty).1,
        decreases s@.len() - i,
    {
        let x = s[i];
        let is_sep = if mode == 0 {
            ws(x)
        } else {
            x == c
        };
        assert(is_sep == sep(x));
        assert(s@.take(i as int + 1).drop_last() =~= s@.take(i as int));
        if is_sep {
            if keep_empty || cur.len() > 0 {
                let piece = cur;
                done.push(piece);
                cur = Vec::new();
            } else {
                cur = Vec::new();
            }
        } else {
            cur.push(x);
        }
        i = i + 1;
        assert(done@.map_values(|v: Vec<char>| v@) =~= split_fold(s@.take(i as int), sep, keep_empty).0);
    }
    assert(s@.take(i as int) =~= s@);
    (done, cur)
}

pub open spec fn sep_of(mode: u8, c: char) -> spec_fn(char) -> bool {
    if mode == 0 {
        |x: char| is_ws(x)
    } else {
        |x: char| x == c
    }
}

pub open spec fn views(v: Seq<Vec<char>>) -> Seq<Seq<char>> {
    v.map_values(|w: Vec<char>| w@)
}

pub fn words_of(s: &[char]) -> (out: Vec<Vec<char>>)
    ensures
        views(out@) == words(s@),
{
    let (mut done, cur) = split_by(s, 0, ' ', false);
    assert(sep_of(0, ' ') =~= (|c: char| is_ws(c)));
    if cur.len() > 0 {
        done.push(cur);
    }
    assert(views(done@) =~= words(s@));
    done
}

pub fn pieces_of(s: &[char], c: char) -> (out: Vec<Vec<char>>)
    ensures
        views(out@) == pieces(s@, c),
{
    let (mut done, cur) = split_by(s, 1, c, true);
    assert(sep_of(1, c) =~= (|x: char| x == c));
    done.push(cur);
    assert(views(done@) =~= pieces(s@, c));
    done
}

pub fn lines_of(s: &[char]) -> (out: Vec<Vec<char>>)
    ensures
        views(out@) == lines(s@),
{
    let (mut done, cur) = split_by(s, 1, '\n', true);
    assert(sep_of(1, '\n') =~= (|x: char| x == '\n'));
    if cur.len() > 0 {
        done.push(cur);
    }
    let ghost raw = views(done@);
    let mut out: Vec<Vec<char>> = Vec::new();
    let mut i: usize = 0;
    while i < done.len()
        invariant
            i <= done@.len(),
            raw == views(done@),
            out@.len() == i,
            forall|j: int| 0 <= j < i ==> #[trigger] out@[j]@ == strip_cr(raw[j]),
        decreases done@.len() - i,
    {
        let line = &done[i];
        assert(line@ == raw[i as int]);
        let n = line.len();
        let fixed = if n > 0 && line[n - 1] == '\r' {
            assert(line@.subrange(0, n - 1) =~= line@.drop_last());
            slice(line.as_slice(), 0, n - 1)
        } else {
            copy(line.as_slice())
        };
        assert(fixed@ == strip_cr(raw[i as int]));
        out.push(fixed);
        i = i + 1;
    }
    assert(views(out@) =~= raw.map_values(|l: Seq<char>| strip_cr(l)));
    out
}

// ---------------------------------------------------------------------------
// Decimal numbers
// ---------------------------------------------------------------------------

pub open spec fn all_digits(s: Seq<char>) -> bool {
    forall|i: int| 0 <= i < s.len() ==> is_digit(#[trigger] s[i])
}

/// The value of a run of decimal digits.
pub open spec fn digits_value(s: Seq<char>) -> nat
    decreases s.len(),
{
    if s.len() == 0 {
        0
    } else {
        digits_value(s.drop_last()) * 10 + digit_value(s.last())
    }
}

/// `str::parse::<u32>`: an optional `+` and at least one digit, in range.
pub open spec fn parse_u32(s: Seq<char>) -> Option<u32> {
    let body = if s.len() > 0 && s[0] == '+' {
        s.drop_first()
    } else {
        s
    };
    if body.len() > 0 && all_digits(body) && digits_value(body) <= u32::MAX {
        Some(digits_value(body) as u32)
    } else {
        None
    }
}

pub proof fn lemma_digits_value_grows(s: Seq<char>, i: int)
    requires
        0 <= i <= s.len(),
        all_digits(s),
    ensures
        digits_value(s.take(i)) <= digits_value(s),
    decreases s.len() - i,
{
    if i < s.len() {
        lemma_digits_value_grows(s, i + 1);
        assert(s.take(i + 1).drop_last() =~= s.take(i));
        assert(is_digit(s[i]));
    } else {
        assert(s.take(i) =~= s);
    }
}

/// The value of the digits `s`, when they fit a `u32`.
pub fn digits_u32(s: &[char]) -> (r: Option<u32>)
    requires
        all_digits(s@),
    ensures
        r matches Some(v) ==> digits_value(s@) <= u32::MAX && v == digits_value(s@),
        r is None ==> digits_value(s@) > u32::MAX,
{
    let mut value: u64 = 0;
    let mut i: usize = 0;
    assert(s@.take(0) =~= Seq::<char>::empty());
    while i < s.len()
        invariant
            i <= s@.len(),
            all_digits(s@),
            value == digits_value(s@.take(i as int)),
            value <= u32::MAX,
        decreases s@.len() - i,
    {
        assert(is_digit(s@[i as int]));
        let d = ((s[i] as u32) - 48) as u64;
        assert(s@.take(i as int + 1).drop_last() =~= s@.take(i as int));
        let next = value * 10 + d;
        i = i + 1;
        if next > 0xffff_ffff {
            proof {
                lemma_digits_value_grows(s@, i as int);
            }
            return None;
        }
        value = next;
    }
    assert(s@.take(i as int) =~= s@);
    Some(value as u32)
}

pub fn all_digits_in(s: &[char]) -> (r: bool)
    ensures
        r == all_digits(s@),
{
    let mut i: usize = 0;
    while i < s.len()
        invariant
            i <= s@.len(),
            forall|j: int| 0 <= j < i ==> is_digit(s@[j]),
        decreases s@.len() - i,
    {
        if !digit(s[i]) {
            return false;
        }
        i = i + 1;
    }
    true
}

/// `str::parse::<u32>`.
pub fn parse_u32_of(s: &[char]) -> (r: Option<u32>)
    ensures
        r == parse_u32(s@),
{
    let body = if s.len() > 0 && s[0] == '+' {
        let b = slice(s, 1, s.len());
        assert(s@.subrange(1, s@.len() as int) =~= s@.drop_first());
        b
    } else {
        copy(s)
    };
    if body.len() == 0 || !all_digits_in(body.as_slice()) {
        return None;
    }
    digits_u32(body.as_slice())
}

/// The decimal spelling of `n`.
pub open spec fn decimal(n: nat) -> Seq<char>
    decreases n,
{
    if n < 10 {
        seq![digit_char(n)]
    } else {
        decimal(n / 10).push(digit_char(n % 10))
    }
}

/// `n` spelled in decimal, padded with zeros to at least `width` characters.
pub open spec fn padded(n: nat, width: nat) -> Seq<char> {
    let d = decimal(n);
    if d.len() < width {
        Seq::new((width - d.len()) as nat, |i: int| '0') + d
    } else {
        d
    }
}

pub proof fn lemma_decimal_digits(n: nat)
    ensures
        decimal(n).len() > 0,
        all_digits(decimal(n)),
        digits_value(decimal(n)) == n,
        n > 0 ==> decimal(n)[0] != '0',
    decreases n,
{
    if n >= 10 {
        lemma_decimal_digits(n / 10);
        let d = decimal(n);
        assert(d.drop_last() =~= decimal(n / 10));
        assert forall|i: int| 0 <= i < d.len() implies is_digit(#[trigger] d[i]) by {
            if i < d.len() - 1 {
                assert(d[i] == decimal(n / 10)[i]);
            }
        }
    } else {
        assert(digits_value(decimal(n).drop_last()) == 0);
    }
}

/// Leading zeros add nothing to a run of digits.
pub proof fn lemma_zeros_then_digits(z: nat, d: Seq<char>)
    ensures
        digits_value(Seq::new(z, |i: int| '0') + d) == digits_value(Seq::new(z, |i: int| '0'))
            * pow10(d.len()) + digits_value(d),
        digits_value(Seq::new(z, |i: int| '0')) == 0,
    decreases d.len(), z,
{
    let zs = Seq::new(z, |i: int| '0');
    if d.len() == 0 {
        assert(zs + d =~= zs);
        if z > 0 {
            lemma_zeros_then_digits((z - 1) as nat, d);
            assert(zs.drop_last() =~= Seq::new((z - 1) as nat, |i: int| '0'));
        }
    } else {
        lemma_zeros_then_digits(z, d.drop_last());
        assert((zs + d).drop_last() =~= zs + d.drop_last());
        assert(digits_value(zs) == 0);
    }
}

pub open spec fn pow10(n: nat) -> nat
    decreases n,
{
    if n == 0 {
        1
    } else {
        10 * pow10((n - 1) as nat)
    }
}

pub proof fn lemma_padded_digits(n: nat, width: nat)
    ensures
        padded(n, width).len() > 0,
        all_digits(padded(n, width)),
        digits_value(padded(n, width)) == n,
        padded(n, width).len() >= width,
{
    lemma_decimal_digits(n);
    let d = decimal(n);
    if d.len() < width {
        let z = (width - d.len()) as nat;
        lemma_zeros_then_digits(z, d);
        let p = Seq::new(z, |i: int| '0') + d;
        assert forall|i: int| 0 <= i < p.len() implies is_digit(#[trigger] p[i]) by {
            if i >= z {
                assert(p[i] == d[i - z]);
            }
        }
    }
}

/// Appends the decimal spelling of `n`.
pub fn push_decimal(out: &mut Vec<char>, n: u32)
    ensures
        final(out)@ == old(out)@ + decimal(n as nat),
    decreases n,
{
    if n >= 10 {
        push_decimal(out, n / 10);
    }
    let d = (n % 10) as u8;
    out.push((d + 48) as char);
    proof {
        assert(((d + 48) as u8) as char == digit_char((n % 10) as nat));
    }
    assert(out@ =~= old(out)@ + decimal(n as nat));
}

/// Appends the decimal spelling of `n`.
pub fn push_decimal_usize(out: &mut Vec<char>, n: usize)
    ensures
        final(out)@ == old(out)@ + decimal(n as nat),
    decreases n,
{
    if n >= 10 {
        push_decimal_usize(out, n / 10);
    }
    let d = (n % 10) as u8;
    out.push((d + 48) as char);
    proof {
        assert(((d + 48) as u8) as char == digit_char((n % 10) as nat));
    }
    assert(out@ =~= old(out)@ + decimal(n as nat));
}

/// Appends `n` in decimal, zero-padded to `width` characters.
pub fn push_padded(out: &mut Vec<char>, n: u32, width: usize)
    ensures
        final(out)@ == old(out)@ + padded(n as nat, width as nat),
{
    let mut digits: Vec<char> = Vec::new();
    push_decimal(&mut digits, n);
    assert(digits@ =~= decimal(n as nat));
    if digits.len() < width {
        let z = width - digits.len();
        let mut i: usize = 0;
        while i < z
            invariant
                i <= z,
                out@ == old(out)@ + Seq::new(i as nat, |j: int| '0'),
            decreases z - i,
        {
            out.push('0');
            i = i + 1;
            assert(out@ =~= old(out)@ + Seq::new(i as nat, |j: int| '0'));
        }
        extend(out, digits.as_slice());
        assert(out@ =~= old(out)@ + padded(n as nat, width as nat));
    } else {
        extend(out, digits.as_slice());
    }
}

pub fn decimal_of(n: u32) -> (out: Vec<char>)
    ensures
        out@ == decimal(n as nat),
{
    let mut out: Vec<char> = Vec::new();
    push_decimal(&mut out, n);
    assert(out@ =~= decimal(n as nat));
    out
}


/// Length of the run of decimal digits that starts `s`.
pub open spec fn digit_run(s: Seq<char>) -> nat
    decreases s.len(),
{
    if s.len() > 0 && is_digit(s[0]) {
        1 + digit_run(s.drop_first())
    } else {
        0
    }
}

pub proof fn lemma_digit_run(s: Seq<char>)
    ensures
        digit_run(s) <= s.len(),
        all_digits(s.take(digit_run(s) as int)),
        digit_run(s) < s.len() ==> !is_digit(s[digit_run(s) as int]),
    decreases s.len(),
{
    if s.len() > 0 && is_digit(s[0]) {
        lemma_digit_run(s.drop_first());
        let k = digit_run(s) as int;
        assert forall|i: int| 0 <= i < k implies is_digit(#[trigger] s.take(k)[i]) by {
            if i > 0 {
                assert(s.take(k)[i] == s.drop_first().take(k - 1)[i - 1]);
            }
        }
        if k < s.len() {
            assert(s[k] == s.drop_first()[k - 1]);
        }
    }
}

/// A run of digits followed by something that does not start with a digit.
pub proof fn lemma_digit_run_concat(a: Seq<char>, b: Seq<char>)
    requires
        all_digits(a),
        b.len() == 0 || !is_digit(b[0]),
    ensures
        digit_run(a + b) == a.len(),
    decreases a.len(),
{
    if a.len() == 0 {
        assert(a + b =~= b);
    } else {
        assert((a + b).drop_first() =~= a.drop_first() + b);
        assert(is_digit(a[0]));
        lemma_digit_run_concat(a.drop_first(), b);
    }
}

pub fn digit_run_of(s: &[char]) -> (n: usize)
    ensures
        n == digit_run(s@),
{
    let mut i: usize = 0;
    assert(s@.skip(0) =~= s@);
    while i < s.len() && digit(s[i])
        invariant
            i <= s@.len(),
            digit_run(s@) == i + digit_run(s@.skip(i as int)),
        decreases s@.len() - i,
    {
        assert(s@.skip(i as int).drop_first() =~= s@.skip(i as int + 1));
        i = i + 1;
    }
    i
}

/// `c` does not occur in `s`.
pub open spec fn lacks(s: Seq<char>, c: char) -> bool {
    forall|i: int| 0 <= i < s.len() ==> s[i] != c
}

/// The first `c` in `a + [c] + b`, when `a` has none, is just past `a`.
pub proof fn lemma_find_char_concat(a: Seq<char>, c: char, b: Seq<char>)
    requires
        lacks(a, c),
    ensures
        find(a + seq![c] + b, seq![c]) == Some(a.len() as int),
{
    let s = a + seq![c] + b;
    assert forall|i: int| 0 <= i <= a.len() implies find_from(s, seq![c], i) == Some(
        a.len() as int,
    ) by {
        lemma_find_char_from(a, c, b, i);
    }
}

proof fn lemma_find_char_from(a: Seq<char>, c: char, b: Seq<char>, i: int)
    requires
        lacks(a, c),
        0 <= i <= a.len(),
    ensures
        find_from(a + seq![c] + b, seq![c], i) == Some(a.len() as int),
    decreases a.len() - i,
{
    let s = a + seq![c] + b;
    if i == a.len() {
        assert(s.subrange(i, i + 1) =~= seq![c]);
    } else {
        assert(s.subrange(i, i + 1)[0] == a[i]);
        assert(!occurs_at(s, seq![c], i));
        lemma_find_char_from(a, c, b, i + 1);
    }
}

/// The last `c` in `a + [c] + b`, when `b` has none, is just past `a`.
pub proof fn lemma_rfind_char_concat(a: Seq<char>, c: char, b: Seq<char>)
    requires
        lacks(b, c),
    ensures
        rfind(a + seq![c] + b, seq![c]) == Some(a.len() as int),
{
    let s = a + seq![c] + b;
    lemma_rfind_char_upto(a, c, b, s.len() - 1);
}

proof fn lemma_rfind_char_upto(a: Seq<char>, c: char, b: Seq<char>, i: int)
    requires
        lacks(b, c),
        a.len() <= i < a.len() + 1 + b.len(),
    ensures
        rfind_upto(a + seq![c] + b, seq![c], i) == Some(a.len() as int),
    decreases i,
{
    let s = a + seq![c] + b;
    if i == a.len() {
        assert(s.subrange(i, i + 1) =~= seq![c]);
    } else {
        assert(s.subrange(i, i + 1)[0] == b[i - a.len() - 1]);
        assert(!occurs_at(s, seq![c], i));
        lemma_rfind_char_upto(a, c, b, i - 1);
    }
}

/// A sequence without `c` has no `c` to find from the right.
pub proof fn lemma_rfind_char_none(s: Seq<char>, c: char)
    requires
        lacks(s, c),
    ensures
        rfind(s, seq![c]) is None,
{
    lemma_rfind_char_none_upto(s, c, s.len() - 1);
}

proof fn lemma_rfind_char_none_upto(s: Seq<char>, c: char, i: int)
    requires
        lacks(s, c),
        i < s.len(),
    ensures
        rfind_upto(s, seq![c], i) is None,
    decreases i + 1,
{
    if i >= 0 {
        assert(s.subrange(i, i + 1)[0] == s[i]);
        assert(!occurs_at(s, seq![c], i));
        lemma_rfind_char_none_upto(s, c, i - 1);
    }
}

} // verus!
