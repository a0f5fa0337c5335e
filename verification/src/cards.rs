//! Card records shared between games: the rules text a card carries, and
//! the name of a game's card catalog.
use vstd::prelude::*;
use crate::text::{chars_of, extend, same, string_of};

verus! {

pub const CARD_KIND: &'static str = "card";
pub const PRINTING_KIND: &'static str = "card-printing";
pub const CARD_PREFIX: &'static str = "cards";

/// A card as a game names it, with the ids other catalogs give it.
#[derive(Debug, Clone, PartialEq, Eq)]
pub struct Card {
    pub external: Vec<(String, String)>,
    pub game: String,
    pub name: String,
}

/// The map a list of key and value pairs spells; a later pair for a key
/// wins.
pub open spec fn pairs_map(s: Seq<(String, String)>) -> Map<Seq<char>, Seq<char>>
    decreases s.len(),
{
    if s.len() == 0 {
        Map::empty()
    } else {
        pairs_map(s.drop_last()).insert(s.last().0@, s.last().1@)
    }
}

/// No two pairs share a key.
pub open spec fn keys_distinct(s: Seq<(String, String)>) -> bool {
    forall|i: int, j: int| 0 <= i < j < s.len() ==> s[i].0@ != s[j].0@
}

proof fn lemma_pairs_map_update(s: Seq<(String, String)>, i: int, p: (String, String))
    requires
        keys_distinct(s),
        0 <= i < s.len(),
        p.0@ == s[i].0@,
    ensures
        pairs_map(s.update(i, p)) == pairs_map(s).insert(p.0@, p.1@),
        keys_distinct(s.update(i, p)),
    decreases s.len(),
{
    let t = s.update(i, p);
    if i == s.len() - 1 {
        assert(t.drop_last() =~= s.drop_last());
        lemma_pairs_map_lacks(s.drop_last(), p.0@);
        assert(pairs_map(t) =~= pairs_map(s).insert(p.0@, p.1@));
    } else {
        assert(t.drop_last() =~= s.drop_last().update(i, p));
        lemma_pairs_map_update(s.drop_last(), i, p);
        assert(s.last().0@ != p.0@);
        assert(pairs_map(t) =~= pairs_map(s).insert(p.0@, p.1@));
    }
}

proof fn lemma_pairs_map_lacks(s: Seq<(String, String)>, k: Seq<char>)
    requires
        forall|i: int| 0 <= i < s.len() ==> (#[trigger] s[i]).0@ != k,
    ensures
        !pairs_map(s).contains_key(k),
    decreases s.len(),
{
    if s.len() > 0 {
        assert forall|i: int| 0 <= i < s.drop_last().len() implies (#[trigger] s.drop_last()[i]).0@ != k by {
            assert(s.drop_last()[i] == s[i]);
        }
        lemma_pairs_map_lacks(s.drop_last(), k);
        assert(s[s.len() - 1].0@ != k);
    }
}

impl Card {
    /// The ids other catalogs give the card.
    pub open spec fn external_ids(&self) -> Map<Seq<char>, Seq<char>> {
        pairs_map(self.external@)
    }

    /// No catalog gives the card two ids.
    pub open spec fn wf(&self) -> bool {
        keys_distinct(self.external@)
    }

    /// A card of `game` named `name`, with no ids from other catalogs.
    pub fn new(game: &str, name: &str) -> (r: Self)
        ensures
            r.game@ == game@,
            r.name@ == name@,
            r.external_ids() == Map::<Seq<char>, Seq<char>>::empty(),
            r.wf(),
    {
        Card { external: Vec::new(), game: game.to_owned(), name: name.to_owned() }
    }

    /// The card with `value` as its id in the catalog `key`, replacing any
    /// id it had there.
    pub fn external(self, key: &str, value: &str) -> (r: Self)
        requires
            self.wf(),
        ensures
            r.game == self.game,
            r.name == self.name,
            r.external_ids() == self.external_ids().insert(key@, value@),
            r.wf(),
    {
        let mut card = self;
        let k = chars_of(key);
        let mut i: usize = 0;
        while i < card.external.len()
            invariant
                i <= card.external@.len(),
                card == self,
                keys_distinct(card.external@),
                k@ == key@,
                forall|j: int| 0 <= j < i ==> (#[trigger] card.external@[j]).0@ != key@,
            decreases card.external@.len() - i,
        {
            if same(chars_of(card.external[i].0.as_str()).as_slice(), k.as_slice()) {
                let ghost before = card.external@;
                let pair = (key.to_owned(), value.to_owned());
                proof {
                    lemma_pairs_map_update(before, i as int, pair);
                }
                card.external.set(i, pair);
                return card;
            }
            i = i + 1;
        }
        let ghost before = card.external@;
        card.external.push((key.to_owned(), value.to_owned()));
        proof {
            assert(card.external@.drop_last() =~= before);
        }
        card
    }
}

/// A card's rules: its name, cost, type line and rules text, and those of
/// each face of a card with several.
#[derive(Debug)]
pub struct Rules {
    pub faces: Vec<Rules>,
    pub mana_cost: String,
    pub name: String,
    pub oracle_text: String,
    pub type_line: String,
}

/// The name of a game's card catalog: `cards/` and the game.
pub fn catalog_name(game: &str) -> (r: String)
    ensures
        r@ == CARD_PREFIX@ + "/"@ + game@,
{
    let mut out = chars_of(CARD_PREFIX);
    extend(&mut out, chars_of("/").as_slice());
    extend(&mut out, chars_of(game).as_slice());
    string_of(out.as_slice())
}

} // verus!
