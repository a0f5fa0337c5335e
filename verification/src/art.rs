//! Card art: which hosts art may come from, and how the store keys the
//! art it keeps.
use vstd::prelude::*;
use crate::riftbound::link::{host_of as link_host, host_text};
use crate::text::{
    chars_of, extend, find, is, lacks, lemma_find_char_concat, lower_all, lower_seq, slice, split_once, split_once_char, starts,
    starts_with_str, string_of, trim, trim_of,
};

verus! {

pub const USER_AGENT: &'static str = "agni-importers/0.1 (personal card store; contact dev@rae.blue)";

/// How far an art fetch has come.
pub struct Progress {
    pub done: usize,
    pub total: usize,
    pub stage: &'static str,
}

/// A card whose art is wanted: its store key, its name and where its art
/// is, if anywhere.
pub struct WantedArt {
    pub key: String,
    pub name: String,
    pub image_url: Option<String>,
}

/// The journals the store keeps art under.
pub open spec fn asset_journal(j: Seq<char>) -> bool {
    j == "playmats"@ || j == "card-backs"@ || j == "riftbound-images"@ || j == "mtg-images"@
}

/// The hosts art may be fetched from.
pub open spec fn asset_host(h: Seq<char>) -> bool {
    h == "cmsassets.rgpub.io"@ || h == "cards.scryfall.io"@ || h == "c1.scryfall.com"@ || h == "c2.scryfall.com"@
}

/// The host of a URL, trimmed and lower-cased, as art checks read it.
pub open spec fn art_host(url: Seq<char>) -> Seq<char> {
    lower_seq(trim(host_text(url)))
}

/// The host a URL names, trimmed and lower-cased, if it names one.
pub fn host_of(url: &str) -> (r: Option<String>)
    ensures
        match r {
            Some(h) => h@ == art_host(url@) && h@.len() > 0,
            None => art_host(url@).len() == 0,
        },
{
    let host = match link_host(url) {
        Some(h) => h,
        None => {
            assert(trim(host_text(url@)) =~= Seq::<char>::empty()) by {
                assert(host_text(url@).len() == 0);
                assert(crate::text::trim_start(host_text(url@)) == host_text(url@));
                assert(crate::text::trim_end(host_text(url@)) == host_text(url@));
            }
            return None;
        },
    };
    let h = lower_all(trim_of(chars_of(host.as_str()).as_slice()).as_slice());
    if h.len() == 0 {
        None
    } else {
        Some(string_of(h.as_slice()))
    }
}

/// Whether art may be fetched from a URL: over https, from a listed host.
pub open spec fn asset_url_ok(url: Seq<char>) -> bool {
    starts(url, "https://"@) && art_host(url).len() > 0 && asset_host(art_host(url))
}

pub fn asset_url_allowed(url: &str) -> (r: bool)
    ensures
        r == asset_url_ok(url@),
{
    if !starts_with_str(chars_of(url).as_slice(), "https://") {
        return false;
    }
    match host_of(url) {
        Some(h) => {
            let h = chars_of(h.as_str());
            let h = h.as_slice();
            is(h, "cmsassets.rgpub.io") || is(h, "cards.scryfall.io") || is(h, "c1.scryfall.com") || is(h, "c2.scryfall.com")
        },
        None => false,
    }
}

/// The store key of a journal's entry: `journal/key`, the key trimmed and
/// lower-cased.
pub fn asset_key(journal: &str, key: &str) -> (r: String)
    ensures
        r@ == journal@ + seq!['/'] + lower_seq(trim(key@)),
{
    let mut out = chars_of(journal);
    out.push('/');
    extend(&mut out, lower_all(trim_of(chars_of(key).as_slice()).as_slice()).as_slice());
    string_of(out.as_slice())
}

/// What `split_asset_key` reads: a known journal, a `/`, and a name.
pub open spec fn asset_key_parts(key: Seq<char>) -> Option<(Seq<char>, Seq<char>)> {
    match split_once(key, seq!['/']) {
        Some((journal, name)) => if asset_journal(journal) && name.len() > 0 {
            Some((journal, name))
        } else {
            None
        },
        None => None,
    }
}

/// A store key's journal and name, when the journal is one the store keeps
/// art under.
pub fn split_asset_key(key: &str) -> (r: Option<(String, String)>)
    ensures
        match asset_key_parts(key@) {
            Some((j, n)) => r matches Some(p) && p.0@ == j && p.1@ == n,
            None => r is None,
        },
{
    match split_once_char(chars_of(key).as_slice(), '/') {
        Some((journal, name)) => {
            let j = journal.as_slice();
            let known = is(j, "playmats") || is(j, "card-backs") || is(j, "riftbound-images") || is(j, "mtg-images");
            if known && name.len() > 0 {
                Some((string_of(journal.as_slice()), string_of(name.as_slice())))
            } else {
                None
            }
        },
        None => None,
    }
}

/// A key `asset_key` writes for a known journal reads back as that
/// journal and the trimmed, lower-cased name, whenever that name is not
/// empty.
pub proof fn lemma_asset_key_round_trip(journal: Seq<char>, key: Seq<char>)
    requires
        asset_journal(journal),
        lower_seq(trim(key)).len() > 0,
    ensures
        asset_key_parts(journal + seq!['/'] + lower_seq(trim(key))) == Some((journal, lower_seq(trim(key)))),
{
    let name = lower_seq(trim(key));
    let whole = journal + seq!['/'] + name;
    reveal_strlit("playmats");
    reveal_strlit("card-backs");
    reveal_strlit("riftbound-images");
    reveal_strlit("mtg-images");
    assert(lacks(journal, '/'));
    lemma_find_char_concat(journal, '/', name);
    assert(whole.take(journal.len() as int) =~= journal);
    assert(whole.skip(journal.len() + 1int) =~= name);
}

} // verus!
