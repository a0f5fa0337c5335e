//! The card ids a Riftbound ingest is asked for: from pool files, from id
//! lists, once each.
use vstd::prelude::*;
use crate::text::{
    chars_of, find_char, lines, lines_of, lower_all, lower_seq, same, slice, split_once,
    split_once_at, starts, starts_with_str, string_of, trim, trim_of, trim_start, trim_start_of,
    views,
};

verus! {

/// The id a pool card line carries: `- **Name** (id; Kind; ...)`, the id
/// trimmed, holding a `-`.
pub open spec fn pool_id(line: Seq<char>) -> Option<Seq<char>> {
    let t = trim_start(line);
    if !starts(t, "- **"@) {
        None
    } else {
        match split_once(t.skip(4), "** ("@) {
            None => None,
            Some((_, after)) => match split_once(after, seq![';']) {
                None => None,
                Some((id, _)) => {
                    let id = trim(id);
                    if id.len() > 0 && id.contains('-') {
                        Some(id)
                    } else {
                        None
                    }
                },
            },
        }
    }
}

/// The id a pool card line carries, if it is a card line.
pub fn pool_line_id(line: &str) -> (r: Option<String>)
    ensures
        match pool_id(line@) {
            Some(id) => r matches Some(s) && s@ == id,
            None => r is None,
        },
{
    proof {
        reveal_strlit("- **");
        reveal_strlit("** (");
    }
    let t = trim_start_of(chars_of(line).as_slice());
    if !starts_with_str(t.as_slice(), "- **") {
        return None;
    }
    let rest = slice(t.as_slice(), 4, t.len());
    assert(rest@ =~= t@.skip(4));
    let mark = chars_of("** (");
    let after = match split_once_at(rest.as_slice(), mark.as_slice()) {
        Some((_, after)) => after,
        None => {
            return None;
        },
    };
    let id = match crate::text::split_once_char(after.as_slice(), ';') {
        Some((id, _)) => id,
        None => {
            return None;
        },
    };
    let id = trim_of(id.as_slice());
    let has_dash = match find_char(id.as_slice(), '-') {
        Some(k) => {
            proof {
                crate::text::lemma_find_from_bounds(id@, seq!['-'], 0);
                assert(id@.subrange(k as int, k + 1)[0] == id@[k as int]);
            }
            true
        },
        None => {
            proof {
                if id@.contains('-') {
                    let j = choose|j: int| 0 <= j < id@.len() && id@[j] == '-';
                    lemma_find_char_finds(id@, j);
                }
            }
            false
        },
    };
    if id.len() > 0 && has_dash {
        Some(string_of(id.as_slice()))
    } else {
        None
    }
}

proof fn lemma_find_char_finds(s: Seq<char>, j: int)
    requires
        0 <= j < s.len(),
        s[j] == '-',
    ensures
        crate::text::find(s, seq!['-']) is Some,
{
    lemma_find_from_reaches(s, 0, j);
}

proof fn lemma_find_from_reaches(s: Seq<char>, i: int, j: int)
    requires
        0 <= i <= j < s.len(),
        s[j] == '-',
    ensures
        crate::text::find_from(s, seq!['-'], i) is Some,
    decreases j - i,
{
    if !crate::text::occurs_at(s, seq!['-'], i) {
        if i == j {
            assert(s.subrange(j, j + 1) =~= seq!['-']);
        }
        lemma_find_from_reaches(s, i + 1, j);
    }
}

/// The ids of a pool file's card lines, lower-cased, in order.
pub open spec fn pool_ids(ls: Seq<Seq<char>>) -> Seq<Seq<char>>
    decreases ls.len(),
{
    if ls.len() == 0 {
        Seq::empty()
    } else {
        let before = pool_ids(ls.drop_last());
        match pool_id(ls.last()) {
            Some(id) => before.push(lower_seq(id)),
            None => before,
        }
    }
}

/// The ids a pool file names.
pub fn ids_from_pool(text: &str) -> (r: Vec<String>)
    ensures
        r@.map_values(|s: String| s@) == pool_ids(lines(text@)),
{
    let all = lines_of(chars_of(text).as_slice());
    let ghost ls = lines(text@);
    let mut out: Vec<String> = Vec::new();
    let mut i: usize = 0;
    while i < all.len()
        invariant
            i <= all@.len(),
            views(all@) == ls,
            out@.map_values(|s: String| s@) == pool_ids(ls.take(i as int)),
        decreases all@.len() - i,
    {
        assert(ls.take(i as int + 1).drop_last() =~= ls.take(i as int));
        assert(all@[i as int]@ == ls[i as int]);
        let line = string_of(all[i].as_slice());
        match pool_line_id(line.as_str()) {
            Some(id) => {
                out.push(string_of(lower_all(chars_of(id.as_str()).as_slice()).as_slice()));
            },
            None => {},
        }
        i = i + 1;
        assert(out@.map_values(|s: String| s@) =~= pool_ids(ls.take(i as int)));
    }
    assert(ls.take(i as int) =~= ls);
    out
}

/// A list line's id: the text before any `#`, trimmed.
pub open spec fn list_id(line: Seq<char>) -> Seq<char> {
    match crate::text::find(line, seq!['#']) {
        Some(k) => trim(line.take(k)),
        None => trim(line),
    }
}

/// The ids of an id list, lower-cased, blank and comment lines left out.
pub open spec fn list_ids(ls: Seq<Seq<char>>) -> Seq<Seq<char>>
    decreases ls.len(),
{
    if ls.len() == 0 {
        Seq::empty()
    } else {
        let before = list_ids(ls.drop_last());
        let id = list_id(ls.last());
        if id.len() > 0 {
            before.push(lower_seq(id))
        } else {
            before
        }
    }
}

/// The ids an id list names, one per line, `#` starting a comment.
pub fn ids_from_list(text: &str) -> (r: Vec<String>)
    ensures
        r@.map_values(|s: String| s@) == list_ids(lines(text@)),
{
    let all = lines_of(chars_of(text).as_slice());
    let ghost ls = lines(text@);
    let mut out: Vec<String> = Vec::new();
    let mut i: usize = 0;
    while i < all.len()
        invariant
            i <= all@.len(),
            views(all@) == ls,
            out@.map_values(|s: String| s@) == list_ids(ls.take(i as int)),
        decreases all@.len() - i,
    {
        assert(ls.take(i as int + 1).drop_last() =~= ls.take(i as int));
        let line = &all[i];
        assert(line@ == ls[i as int]);
        let head = match find_char(line.as_slice(), '#') {
            Some(k) => {
                proof {
                    crate::text::lemma_find_from_bounds(line@, seq!['#'], 0);
                }
                let h = slice(line.as_slice(), 0, k);
                assert(h@ =~= line@.take(k as int));
                h
            },
            None => crate::text::copy(line.as_slice()),
        };
        let id = trim_of(head.as_slice());
        if id.len() > 0 {
            out.push(string_of(lower_all(id.as_slice()).as_slice()));
        }
        i = i + 1;
        assert(out@.map_values(|s: String| s@) =~= list_ids(ls.take(i as int)));
    }
    assert(ls.take(i as int) =~= ls);
    out
}

/// The ids with every repeat after the first left out.
pub open spec fn deduped(ids: Seq<Seq<char>>) -> Seq<Seq<char>>
    decreases ids.len(),
{
    if ids.len() == 0 {
        Seq::empty()
    } else {
        let before = deduped(ids.drop_last());
        if before.contains(ids.last()) {
            before
        } else {
            before.push(ids.last())
        }
    }
}

/// The ids, each once, in the order they first come.
pub fn dedupe(ids: Vec<String>) -> (r: Vec<String>)
    ensures
        r@.map_values(|s: String| s@) == deduped(ids@.map_values(|s: String| s@)),
{
    let ghost all = ids@.map_values(|s: String| s@);
    let mut out: Vec<String> = Vec::new();
    let mut i: usize = 0;
    while i < ids.len()
        invariant
            i <= ids@.len(),
            all == ids@.map_values(|s: String| s@),
            out@.map_values(|s: String| s@) == deduped(all.take(i as int)),
        decreases ids@.len() - i,
    {
        assert(all.take(i as int + 1).drop_last() =~= all.take(i as int));
        assert(all.take(i as int + 1).last() == ids@[i as int]@);
        let ghost seen = out@.map_values(|s: String| s@);
        let id = chars_of(ids[i].as_str());
        let mut j: usize = 0;
        let mut found = false;
        while j < out.len()
            invariant
                j <= out@.len(),
                seen == out@.map_values(|s: String| s@),
                id@ == ids@[i as int]@,
                found == exists|k: int| 0 <= k < j && seen[k] == id@,
            decreases out@.len() - j,
        {
            assert(seen[j as int] == out@[j as int]@);
            if same(chars_of(out[j].as_str()).as_slice(), id.as_slice()) {
                found = true;
            }
            j = j + 1;
            assert(found == exists|k: int| 0 <= k < j && seen[k] == id@) by {
                if exists|k: int| 0 <= k < j && seen[k] == id@ {
                    let k = choose|k: int| 0 <= k < j && seen[k] == id@;
                    if k < j - 1 {
                        assert(0 <= k < j - 1 && seen[k] == id@);
                    }
                }
            }
        }
        if !found {
            out.push(ids[i].clone());
        }
        i = i + 1;
        assert(out@.map_values(|s: String| s@) =~= deduped(all.take(i as int)));
    }
    assert(all.take(i as int) =~= all);
    out
}

} // verus!
