//! Lookups of what a card definition says.

use vstd::prelude::*;
use crate::dsl::loader::{Aspect, Bundle, CardDef};
use crate::sequences::position;
use crate::text::str_eq;

verus! {

use crate::sequences::first_where;

/// Whether an aspect has a name.
pub open spec fn aspect_of(name: Seq<char>) -> spec_fn(Aspect) -> bool {
    |a: Aspect| a.name@ == name
}

impl CardDef {
    /// The value this definition gives an aspect.
    pub open spec fn aspect(self, name: Seq<char>) -> Option<i64> {
        match first_where(self.aspects@, aspect_of(name)) {
            Some(i) => Some(self.aspects@[i].value),
            None => None,
        }
    }
}

/// The value the definition behind a packed id gives an aspect.
pub open spec fn defined_aspect<B>(bundle: Bundle<B>, packed: u16, name: Seq<char>) -> Option<i64> {
    match bundle.packed_name(packed) {
        Some(card) => match bundle.card_named(card) {
            Some(def) => def.aspect(name),
            None => None,
        },
        None => None,
    }
}

/// The value of an aspect of a packed definition, or `None` where the definition is
/// unknown or does not declare the aspect.
pub fn aspect_value<B>(bundle: &Bundle<B>, packed: u16, aspect: &str) -> (r: Option<i64>)
    ensures
        r == defined_aspect(*bundle, packed, aspect@),
{
    let name = match bundle.name_for_packed(packed) {
        Some(name) => name,
        None => {
            return None;
        },
    };
    let def = match bundle.card(name) {
        Some(def) => def,
        None => {
            return None;
        },
    };
    let test = |a: &Aspect| -> (b: bool)
        ensures
            b == (a.name@ == aspect@),
    {
        str_eq(a.name.as_str(), aspect)
    };
    let found = position(&def.aspects, test, Ghost(aspect_of(aspect@)));
    match found {
        Some(i) => Some(def.aspects[i].value),
        None => None,
    }
}

} // verus!
