//! Card-name normalization and URL query-component encoding.
use vstd::prelude::*;
use vstd::string::StringSliceAdditionalSpecFns;
use crate::text::{chars_of, extend, is_ascii_alnum, is_digit, is_lower, lower, string_of};

verus! {

/// Whether `char::is_alphanumeric` holds of `c` (the Unicode tables decide).
pub uninterp spec fn unicode_alphanumeric(c: char) -> bool;

/// What `char::to_lowercase` yields for `c` (the Unicode tables decide).
pub uninterp spec fn unicode_lowercase(c: char) -> Seq<char>;

/// What `str::to_lowercase` gives for `s` (the Unicode tables decide).
pub uninterp spec fn str_lowercase(s: Seq<char>) -> Seq<char>;

/// `str::to_lowercase`. The contract names the result: the same text is
/// always lowered the same way.
#[verifier::external_body]
pub fn lowercase_text(s: &str) -> (r: String)
    ensures
        r@ == str_lowercase(s@),
{
    s.to_lowercase()
}

/// `char::is_alphanumeric`: Unicode alphabetic or numeric. Of ASCII the
/// documentation gives the letters and digits and nothing else; beyond
/// ASCII the result is named, not stated.
#[verifier::external_body]
fn is_alphanumeric(c: char) -> (r: bool)
    ensures
        r == unicode_alphanumeric(c),
        (c as u32) < 128 ==> (r == is_ascii_alnum(c)),
{
    c.is_alphanumeric()
}

/// `char::to_lowercase`, collected: an ASCII character maps to its ASCII
/// lowercase; beyond ASCII the result is named, not stated.
#[verifier::external_body]
fn to_lowercase(c: char) -> (r: Vec<char>)
    ensures
        r@ == unicode_lowercase(c),
        (c as u32) < 128 ==> r@ == seq![lower(c)],
{
    c.to_lowercase().collect()
}

/// Reading state of `normalize_name`: the text so far, and whether a
/// separator is pending.
pub open spec fn normalize_step(state: (Seq<char>, bool), c: char) -> (Seq<char>, bool) {
    if unicode_alphanumeric(c) {
        let sep = if state.1 && state.0.len() > 0 {
            seq![' ']
        } else {
            Seq::empty()
        };
        (state.0 + sep + unicode_lowercase(c), false)
    } else {
        (state.0, true)
    }
}

pub open spec fn normalize_fold(s: Seq<char>) -> (Seq<char>, bool)
    decreases s.len(),
{
    if s.len() == 0 {
        (Seq::empty(), false)
    } else {
        normalize_step(normalize_fold(s.drop_last()), s.last())
    }
}

/// The lowercase words of `s`, joined by single spaces; every run of
/// characters that are not letters or digits is one separator.
pub open spec fn normalized(s: Seq<char>) -> Seq<char> {
    normalize_fold(s).0
}

/// Whether every character of `s` is ASCII.
pub open spec fn ascii(s: Seq<char>) -> bool {
    forall|i: int| 0 <= i < s.len() ==> (s[i] as u32) < 128
}

/// `normalize_step` on ASCII, where the letters and digits and their
/// lowercase are known.
pub open spec fn ascii_step(state: (Seq<char>, bool), c: char) -> (Seq<char>, bool) {
    if is_ascii_alnum(c) {
        let sep = if state.1 && state.0.len() > 0 {
            seq![' ']
        } else {
            Seq::empty()
        };
        (state.0 + sep + seq![lower(c)], false)
    } else {
        (state.0, true)
    }
}

pub open spec fn ascii_fold(s: Seq<char>) -> (Seq<char>, bool)
    decreases s.len(),
{
    if s.len() == 0 {
        (Seq::empty(), false)
    } else {
        ascii_step(ascii_fold(s.drop_last()), s.last())
    }
}

/// What `normalize_name` gives for an ASCII name.
pub open spec fn ascii_normalized(s: Seq<char>) -> Seq<char> {
    ascii_fold(s).0
}

/// A normalized text: lowercase letters and digits in words, one space
/// between two words and none at either end.
pub open spec fn clean(t: Seq<char>) -> bool {
    &&& forall|i: int| 0 <= i < t.len() ==> (#[trigger] t[i] == ' ' || is_lower(t[i]) || is_digit(t[i]))
    &&& t.len() > 0 ==> t[0] != ' ' && t.last() != ' '
    &&& forall|i: int| 0 <= i < t.len() - 1 ==> !(#[trigger] t[i] == ' ' && t[i + 1] == ' ')
}

proof fn lemma_ascii_fold_clean(s: Seq<char>)
    ensures
        clean(ascii_fold(s).0),
    decreases s.len(),
{
    if s.len() > 0 {
        lemma_ascii_fold_clean(s.drop_last());
        let st = ascii_fold(s.drop_last());
        let c = s.last();
        if is_ascii_alnum(c) {
            let sep = if st.1 && st.0.len() > 0 {
                seq![' ']
            } else {
                Seq::<char>::empty()
            };
            let t = st.0 + sep + seq![lower(c)];
            assert(t.last() == lower(c));
            assert forall|i: int| 0 <= i < t.len() implies (#[trigger] t[i] == ' ' || is_lower(t[i]) || is_digit(t[i])) by {
                if i < st.0.len() {
                    assert(t[i] == st.0[i]);
                }
            }
            assert forall|i: int| 0 <= i < t.len() - 1 implies !(#[trigger] t[i] == ' ' && t[i + 1] == ' ') by {
                if i + 1 < st.0.len() {
                    assert(t[i] == st.0[i] && t[i + 1] == st.0[i + 1]);
                } else if i + 1 == st.0.len() {
                    assert(t[i] == st.0.last());
                }
            }
            if st.0.len() > 0 {
                assert(t[0] == st.0[0]);
            }
        }
    }
}

proof fn lemma_ascii_fold_of_clean(t: Seq<char>)
    requires
        clean(t),
    ensures
        ascii_fold(t) == (t, false),
    decreases t.len(),
{
    if t.len() > 0 {
        let p = t.drop_last();
        let n = p.len();
        if n > 0 && p.last() == ' ' {
            let q = p.drop_last();
            lemma_clean_prefix(t, q.len() as int);
            lemma_ascii_fold_of_clean(q);
            assert(ascii_fold(p) == (q, true));
            assert(t[n - 1] == ' ');
            assert(t.last() != ' ');
            assert(q.len() > 0) by {
                if q.len() == 0 {
                    assert(t[0] == ' ');
                }
            }
            assert(t =~= q + seq![' '] + seq![lower(t.last())]);
        } else {
            lemma_clean_prefix(t, n as int);
            lemma_ascii_fold_of_clean(p);
            assert(t =~= p + Seq::<char>::empty() + seq![lower(t.last())]);
        }
    }
}

proof fn lemma_clean_prefix(t: Seq<char>, k: int)
    requires
        clean(t),
        0 <= k < t.len(),
        k == 0 || t[k - 1] != ' ',
    ensures
        clean(t.take(k)),
{
    let p = t.take(k);
    assert forall|i: int| 0 <= i < p.len() implies (#[trigger] p[i] == ' ' || is_lower(p[i]) || is_digit(p[i])) by {
        assert(p[i] == t[i]);
    }
    assert forall|i: int| 0 <= i < p.len() - 1 implies !(#[trigger] p[i] == ' ' && p[i + 1] == ' ') by {
        assert(p[i] == t[i] && p[i + 1] == t[i + 1]);
    }
    if k > 0 {
        assert(p[0] == t[0]);
        assert(p.last() == t[k - 1]);
    }
}

/// Normalizing an ASCII name twice gives what normalizing it once gives,
/// and what it gives is ASCII again.
pub proof fn lemma_normalize_idempotent(s: Seq<char>)
    ensures
        ascii_normalized(ascii_normalized(s)) == ascii_normalized(s),
        ascii(ascii_normalized(s)),
{
    lemma_ascii_fold_clean(s);
    lemma_ascii_fold_of_clean(ascii_normalized(s));
    let t = ascii_normalized(s);
    assert forall|i: int| 0 <= i < t.len() implies (t[i] as u32) < 128 by {
        assert(t[i] == ' ' || is_lower(t[i]) || is_digit(t[i]));
    }
}

pub fn normalize_chars(name: &[char]) -> (out: Vec<char>)
    ensures
        out@ == normalized(name@),
        ascii(name@) ==> out@ == ascii_normalized(name@),
{
    let mut out: Vec<char> = Vec::new();
    let mut pending = false;
    let mut i: usize = 0;
    while i < name.len()
        invariant
            i <= name@.len(),
            (out@, pending) == normalize_fold(name@.take(i as int)),
            ascii(name@) ==> (out@, pending) == ascii_fold(name@.take(i as int)),
        decreases name@.len() - i,
    {
        let c = name[i];
        assert(name@.take(i as int + 1).drop_last() =~= name@.take(i as int));
        if is_alphanumeric(c) {
            if pending && out.len() > 0 {
                out.push(' ');
            }
            pending = false;
            let low = to_lowercase(c);
            extend(&mut out, low.as_slice());
        } else {
            pending = true;
        }
        i = i + 1;
        assert(out@ =~= normalize_fold(name@.take(i as int)).0);
        proof {
            if ascii(name@) {
                assert((name@[i - 1] as u32) < 128);
                assert(out@ =~= ascii_fold(name@.take(i as int)).0);
            }
        }
    }
    assert(name@.take(i as int) =~= name@);
    out
}

/// Case- and punctuation-insensitive form of a card name.
pub fn normalize_name(name: &str) -> (out: String)
    ensures
        out@ == normalized(name@),
        ascii(name@) ==> out@ == ascii_normalized(name@),
{
    let cs = chars_of(name);
    let n = normalize_chars(cs.as_slice());
    string_of(n.as_slice())
}

pub open spec fn unreserved(b: u8) -> bool {
    (65 <= b <= 90) || (97 <= b <= 122) || (48 <= b <= 57) || b == 45 || b == 95 || b == 46
        || b == 126
}

pub open spec fn hex_digit(d: u8) -> char {
    if d < 10 {
        ((d + 48) as u8) as char
    } else {
        ((d + 55) as u8) as char
    }
}

/// The percent-encoding of one byte.
pub open spec fn encoded_byte(b: u8) -> Seq<char> {
    if unreserved(b) {
        seq![b as char]
    } else {
        seq!['%', hex_digit(b / 16), hex_digit(b % 16)]
    }
}

pub open spec fn encoded_bytes(bs: Seq<u8>) -> Seq<char>
    decreases bs.len(),
{
    if bs.len() == 0 {
        Seq::empty()
    } else {
        encoded_bytes(bs.drop_last()) + encoded_byte(bs.last())
    }
}

fn hex(d: u8) -> (c: char)
    requires
        d < 16,
    ensures
        c == hex_digit(d),
{
    if d < 10 {
        (d + 48) as char
    } else {
        (d + 55) as char
    }
}

/// Percent-encodes the UTF-8 bytes of `text`, keeping only the unreserved
/// URL characters as they are.
pub fn encode_component(text: &str) -> (out: String)
    ensures
        out@ == encoded_bytes(text.spec_bytes()),
{
    let bytes = text.as_bytes();
    let mut out: Vec<char> = Vec::new();
    let mut i: usize = 0;
    while i < bytes.len()
        invariant
            i <= bytes@.len(),
            bytes@ == text.spec_bytes(),
            out@ == encoded_bytes(bytes@.take(i as int)),
        decreases bytes@.len() - i,
    {
        let b = bytes[i];
        assert(bytes@.take(i as int + 1).drop_last() =~= bytes@.take(i as int));
        if (65 <= b && b <= 90) || (97 <= b && b <= 122) || (48 <= b && b <= 57) || b == 45 || b
            == 95 || b == 46 || b == 126 {
            out.push(b as char);
        } else {
            out.push('%');
            out.push(hex(b / 16));
            out.push(hex(b % 16));
        }
        i = i + 1;
        assert(out@ =~= encoded_bytes(bytes@.take(i as int)));
    }
    assert(bytes@.take(i as int) =~= bytes@);
    string_of(out.as_slice())
}

} // verus!
