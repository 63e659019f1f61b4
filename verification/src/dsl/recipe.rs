//! The frame of a running recipe: which card stands at which slot path.

use vstd::prelude::*;
use crate::sequences::position;
use crate::text::str_eq;

verus! {

use crate::sequences::{first_where, lemma_first_where};

/// A card placed at a slot path.
#[derive(Debug, PartialEq, Eq)]
pub struct Placed {
    pub path: String,
    pub card_id: u32,
}

/// The cards placed for a recipe. Where two share a path, the first is meant.
#[derive(Debug, PartialEq, Eq)]
pub struct Frame {
    pub placed: Vec<Placed>,
}

/// Whether `path` goes on past `prefix`, with a dot between.
pub open spec fn leads_to(prefix: Seq<char>, path: Seq<char>) -> bool {
    prefix.len() < path.len() && path.take(prefix.len() as int) == prefix
        && path[prefix.len() as int] == '.'
}

/// Whether entry `i` is the first of those with the longest path that leads to
/// `path`.
pub open spec fn is_longest(placed: Seq<Placed>, path: Seq<char>, i: int) -> bool {
    0 <= i < placed.len() && leads_to(placed[i].path@, path) && forall|j: int|
        0 <= j < placed.len() && leads_to((#[trigger] placed[j]).path@, path)
            ==> placed[j].path@.len() < placed[i].path@.len() || (placed[j].path@.len()
            == placed[i].path@.len() && i <= j)
}

/// Whether a card is placed at a path.
pub open spec fn at_path(path: Seq<char>) -> spec_fn(Placed) -> bool {
    |p: Placed| p.path@ == path
}

impl Frame {
    /// The card placed at a path.
    pub open spec fn card(self, path: Seq<char>) -> Option<u32> {
        match first_where(self.placed@, at_path(path)) {
            Some(i) => Some(self.placed@[i].card_id),
            None => None,
        }
    }

    /// The longest placed path that leads to `path`: its card, and the rest of
    /// `path` past the dot.
    pub open spec fn prefix(self, path: Seq<char>) -> Option<(Seq<char>, u32, Seq<char>)> {
        if exists|i: int| is_longest(self.placed@, path, i) {
            let entry = self.placed@[choose|i: int| is_longest(self.placed@, path, i)];
            Some((entry.path@, entry.card_id, path.skip((entry.path@.len() + 1) as int)))
        } else {
            None
        }
    }

    /// The card at a path is the first that is placed there.
    pub proof fn law_card_is_the_first_placed(self, path: Seq<char>, i: int)
        ensures
            0 <= i < self.placed@.len() && self.placed@[i].path@ == path && (forall|j: int|
                0 <= j < i ==> (#[trigger] self.placed@[j]).path@ != path) ==> self.card(path)
                == Some(self.placed@[i].card_id),
            (forall|j: int| 0 <= j < self.placed@.len() ==> (#[trigger] self.placed@[j]).path@
                != path) ==> self.card(path) is None,
    {
        let pred = at_path(path);
        lemma_first_where(self.placed@, pred, i);
    }

    /// The card placed at a path, or `None`.
    pub fn card_at(&self, path: &str) -> (r: Option<u32>)
        ensures
            r == self.card(path@),
    {
        let test = |p: &Placed| -> (b: bool)
            ensures
                b == (p.path@ == path@),
        {
            str_eq(p.path.as_str(), path)
        };
        let found = position(&self.placed, test, Ghost(at_path(path@)));
        match found {
            Some(i) => Some(self.placed[i].card_id),
            None => None,
        }
    }

    /// The longest placed path that leads to `path`, with its card and the rest of
    /// `path`; `None` if no placed path does.
    pub fn longest_prefix<'a>(&'a self, path: &'a str) -> (r: Option<(&'a str, u32, &'a str)>)
        ensures
            match r {
                Some(found) => self.prefix(path@) == Some((found.0@, found.1, found.2@)),
                None => self.prefix(path@) is None,
            },
    {
        let n: usize = path.unicode_len();
        let mut best: usize = 0;
        let mut found = false;
        for i in 0..self.placed.len()
            invariant
                n == path@.len(),
                found ==> best < i,
                found ==> is_longest(self.placed@.take(i as int), path@, best as int),
                !found ==> forall|j: int|
                    0 <= j < i ==> !leads_to((#[trigger] self.placed@[j]).path@, path@),
        {
            let entry = self.placed[i].path.as_str();
            let size: usize = entry.unicode_len();
            let leads = size < n && str_eq(path.substring_char(0, size), entry) && path.get_char(
                size,
            ) == '.';
            proof {
                assert(leads == leads_to(self.placed@[i as int].path@, path@));
            }
            if leads && (!found || self.placed[best].path.as_str().unicode_len() < size) {
                best = i;
                found = true;
            }
            proof {
                let now = self.placed@.take(i + 1);
                if found {
                    assert forall|j: int|
                        0 <= j < now.len() && leads_to((#[trigger] now[j]).path@, path@) implies now[j].path@.len()
                        < now[best as int].path@.len() || (now[j].path@.len()
                        == now[best as int].path@.len() && best <= j) by {
                        if j < i {
                            assert(self.placed@.take(i as int)[j] == now[j]);
                        }
                    }
                    assert(is_longest(now, path@, best as int));
                }
            }
        }
        assert(self.placed@.take(self.placed@.len() as int) =~= self.placed@);
        if found {
            let entry = &self.placed[best];
            let size: usize = entry.path.as_str().unicode_len();
            proof {
                let k = choose|k: int| is_longest(self.placed@, path@, k);
                assert(is_longest(self.placed@, path@, k));
                assert(leads_to(self.placed@[k].path@, path@));
                assert(leads_to(self.placed@[best as int].path@, path@));
                assert(k == best);
                assert(path@.skip(size + 1) =~= path@.subrange(size + 1, n as int));
            }
            Some((entry.path.as_str(), entry.card_id, path.substring_char(size + 1, n)))
        } else {
            proof {
                if exists|i: int| is_longest(self.placed@, path@, i) {
                    let i = choose|i: int| is_longest(self.placed@, path@, i);
                    assert(leads_to(self.placed@[i].path@, path@));
                }
            }
            None
        }
    }
}

} // verus!
