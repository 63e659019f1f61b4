//! Card-type nibbles, and the bundle of loaded definitions.

use vstd::prelude::*;
use crate::sequences::position;
use crate::text::str_eq;

verus! {

use crate::sequences::first_where;

/// Card-type nibbles.
pub const TYPE_REQUISITE: u8 = 0;

pub const TYPE_TILE: u8 = 7;

pub const TYPE_MINI_ZONE: u8 = 8;

pub const TYPE_TILE_DECORATOR: u8 = 9;

/// The declared card types, by name.
pub open spec fn declared_type(name: Seq<char>) -> Option<u8> {
    if name == "requisite"@ {
        Some(TYPE_REQUISITE)
    } else if name == "tile"@ {
        Some(TYPE_TILE)
    } else if name == "mini_zone"@ {
        Some(TYPE_MINI_ZONE)
    } else if name == "tile_decorator"@ {
        Some(TYPE_TILE_DECORATOR)
    } else {
        None
    }
}

/// The nibble of a card type, or `None` for an unknown name.
pub fn type_nibble(name: &str) -> (r: Option<u8>)
    ensures
        r == declared_type(name@),
{
    if str_eq(name, "requisite") {
        Some(TYPE_REQUISITE)
    } else if str_eq(name, "tile") {
        Some(TYPE_TILE)
    } else if str_eq(name, "mini_zone") {
        Some(TYPE_MINI_ZONE)
    } else if str_eq(name, "tile_decorator") {
        Some(TYPE_TILE_DECORATOR)
    } else {
        None
    }
}

/// A stock slot a card definition declares: the bits of a card's stock word that
/// hold the current value of an aspect.
#[derive(Debug, PartialEq, Eq)]
pub struct StockSlot {
    pub aspect: String,
    pub shift: u8,
    pub width: u8,
}

/// The value a card definition gives an aspect.
#[derive(Debug, PartialEq, Eq)]
pub struct Aspect {
    pub name: String,
    pub value: i64,
}

/// A card definition: its name, its id in the catalog, its aspects, and its stock
/// slots in order.
#[derive(Debug, PartialEq, Eq)]
pub struct CardDef {
    pub name: String,
    pub def_id: u32,
    pub aspects: Vec<Aspect>,
    pub stock: Vec<StockSlot>,
}

/// A blueprint definition: its key, its id, and the card that it spawns.
#[derive(Debug, PartialEq, Eq)]
pub struct BlueprintDef {
    pub key: String,
    pub id: u32,
    pub card: String,
}

/// The name of a packed definition.
#[derive(Debug, PartialEq, Eq)]
pub struct PackedName {
    pub packed: u16,
    pub name: String,
}

/// A hook of a recipe (`input`, `output`): its name and the statements of its body.
#[derive(Debug, PartialEq, Eq)]
pub struct Hook<B> {
    pub name: String,
    pub body: Vec<B>,
}

/// A loaded recipe. `B` is the type of a statement, which only the recipe machine
/// reads. Where two hooks share a name, the first is meant.
#[derive(Debug, PartialEq, Eq)]
pub struct Recipe<B> {
    pub name: String,
    pub hooks: Vec<Hook<B>>,
}

/// Whether a hook has a name.
pub open spec fn hook_of<B>(name: Seq<char>) -> spec_fn(Hook<B>) -> bool {
    |h: Hook<B>| h.name@ == name
}

/// Whether an entry names a packed definition.
pub open spec fn packed_as(packed: u16) -> spec_fn(PackedName) -> bool {
    |e: PackedName| e.packed == packed
}

/// Whether a definition has a name.
pub open spec fn card_of(name: Seq<char>) -> spec_fn(CardDef) -> bool {
    |c: CardDef| c.name@ == name
}

/// Whether a definition has an id.
pub open spec fn numbered_as(def_id: u32) -> spec_fn(CardDef) -> bool {
    |c: CardDef| c.def_id == def_id
}

/// Whether a blueprint has a key.
pub open spec fn keyed_as(key: Seq<char>) -> spec_fn(BlueprintDef) -> bool {
    |d: BlueprintDef| d.key@ == key
}

/// Whether a blueprint spawns a card.
pub open spec fn spawning_card(card: Seq<char>) -> spec_fn(BlueprintDef) -> bool {
    |d: BlueprintDef| d.card@ == card
}

/// Whether a recipe has a name.
pub open spec fn recipe_of<B>(name: Seq<char>) -> spec_fn(Recipe<B>) -> bool {
    |p: Recipe<B>| p.name@ == name
}

impl<B> Recipe<B> {
    /// The hook of a name.
    pub open spec fn hook_named(self, name: Seq<char>) -> Option<Hook<B>> {
        match first_where(self.hooks@, hook_of::<B>(name)) {
            Some(i) => Some(self.hooks@[i]),
            None => None,
        }
    }

    /// The statements that a recipe runs at a hook: none where it has no such hook.
    pub open spec fn hook_body(self, name: Seq<char>) -> Seq<B> {
        match self.hook_named(name) {
            Some(hook) => hook.body@,
            None => Seq::empty(),
        }
    }

    /// The hook of a name, or `None` if the recipe does not have it.
    pub fn hook(&self, name: &str) -> (r: Option<&Hook<B>>)
        ensures
            match r {
                Some(hook) => self.hook_named(name@) == Some(*hook),
                None => self.hook_named(name@) is None,
            },
    {
        let test = |h: &Hook<B>| -> (b: bool)
            ensures
                b == (h.name@ == name@),
        {
            str_eq(h.name.as_str(), name)
        };
        let found = position(&self.hooks, test, Ghost(hook_of::<B>(name@)));
        match found {
            Some(i) => Some(&self.hooks[i]),
            None => None,
        }
    }

    /// The statements that the recipe runs at a hook.
    pub fn body_at(&self, name: &str) -> (r: &[B])
        ensures
            r@ == self.hook_body(name@),
    {
        match self.hook(name) {
            Some(hook) => hook.body.as_slice(),
            None => &[],
        }
    }
}

/// The loaded definitions. `packed` names the packed definitions of stored rows;
/// `cards` is the catalog. Where two entries share a key, the first is meant.
#[derive(Debug, PartialEq, Eq)]
pub struct Bundle<B> {
    pub packed: Vec<PackedName>,
    pub cards: Vec<CardDef>,
    pub blueprints: Vec<BlueprintDef>,
    pub recipes: Vec<Recipe<B>>,
}

impl<B> Bundle<B> {
    /// Every stock slot starts inside the stock word.
    pub open spec fn wf(self) -> bool {
        forall|i: int, j: int|
            0 <= i < self.cards@.len() && 0 <= j < self.cards@[i].stock@.len() ==> (
            #[trigger] self.cards@[i].stock@[j]).shift < 32
    }

    /// Whether every stock slot starts inside the stock word.
    pub fn is_wf(&self) -> (r: bool)
        ensures
            r == self.wf(),
    {
        for i in 0..self.cards.len()
            invariant
                forall|a: int, b: int|
                    0 <= a < i && 0 <= b < self.cards@[a].stock@.len() ==> (
                    #[trigger] self.cards@[a].stock@[b]).shift < 32,
        {
            let slots = &self.cards[i].stock;
            for j in 0..slots.len()
                invariant
                    i < self.cards@.len(),
                    *slots == self.cards@[i as int].stock,
                    forall|b: int| 0 <= b < j ==> (#[trigger] slots@[b]).shift < 32,
            {
                if slots[j].shift >= 32 {
                    assert(self.cards@[i as int].stock@[j as int].shift >= 32);
                    return false;
                }
            }
        }
        true
    }

    /// The name of a packed definition.
    pub open spec fn packed_name(self, packed: u16) -> Option<Seq<char>> {
        match first_where(self.packed@, packed_as(packed)) {
            Some(i) => Some(self.packed@[i].name@),
            None => None,
        }
    }

    /// The catalog entry of a name.
    pub open spec fn card_named(self, name: Seq<char>) -> Option<CardDef> {
        match first_where(self.cards@, card_of(name)) {
            Some(i) => Some(self.cards@[i]),
            None => None,
        }
    }

    /// The catalog entry of an id.
    pub open spec fn card_with_id(self, def_id: u32) -> Option<CardDef> {
        match first_where(self.cards@, numbered_as(def_id)) {
            Some(i) => Some(self.cards@[i]),
            None => None,
        }
    }

    /// The id of the blueprint with a key.
    pub open spec fn blueprint_keyed(self, key: Seq<char>) -> Option<u32> {
        match first_where(self.blueprints@, keyed_as(key)) {
            Some(i) => Some(self.blueprints@[i].id),
            None => None,
        }
    }

    /// The id of the blueprint that spawns a card.
    pub open spec fn blueprint_spawning(self, card: Seq<char>) -> Option<u32> {
        match first_where(self.blueprints@, spawning_card(card)) {
            Some(i) => Some(self.blueprints@[i].id),
            None => None,
        }
    }

    /// The recipe of a name.
    pub open spec fn recipe_named(self, name: Seq<char>) -> Option<Recipe<B>> {
        match first_where(self.recipes@, recipe_of::<B>(name)) {
            Some(i) => Some(self.recipes@[i]),
            None => None,
        }
    }

    /// The name of a packed definition, or `None` if the bundle does not have it.
    pub fn name_for_packed(&self, packed: u16) -> (r: Option<&str>)
        ensures
            match r {
                Some(name) => self.packed_name(packed) == Some(name@),
                None => self.packed_name(packed) is None,
            },
    {
        let test = |e: &PackedName| -> (b: bool)
            ensures
                b == (e.packed == packed),
        {
            e.packed == packed
        };
        let found = position(&self.packed, test, Ghost(packed_as(packed)));
        match found {
            Some(i) => Some(self.packed[i].name.as_str()),
            None => None,
        }
    }

    /// The catalog entry of a name, or `None` for an unknown name.
    pub fn card(&self, name: &str) -> (r: Option<&CardDef>)
        ensures
            match r {
                Some(def) => self.card_named(name@) == Some(*def),
                None => self.card_named(name@) is None,
            },
            self.wf() ==> (r matches Some(def) ==> forall|j: int|
                0 <= j < def.stock@.len() ==> (#[trigger] def.stock@[j]).shift < 32),
    {
        let test = |c: &CardDef| -> (b: bool)
            ensures
                b == (c.name@ == name@),
        {
            str_eq(c.name.as_str(), name)
        };
        let found = position(&self.cards, test, Ghost(card_of(name@)));
        match found {
            Some(i) => Some(&self.cards[i]),
            None => None,
        }
    }

    /// The catalog id of a name, or `None` for an unknown name.
    pub fn card_def_id(&self, name: &str) -> (r: Option<u32>)
        ensures
            r == match self.card_named(name@) {
                Some(def) => Some(def.def_id),
                None => None,
            },
    {
        match self.card(name) {
            Some(def) => Some(def.def_id),
            None => None,
        }
    }

    /// The name of a catalog id, or `None` for an unknown id.
    pub fn card_name(&self, def_id: u32) -> (r: Option<&str>)
        ensures
            match r {
                Some(name) => self.card_with_id(def_id) matches Some(def) && def.name@ == name@,
                None => self.card_with_id(def_id) is None,
            },
    {
        let test = |c: &CardDef| -> (b: bool)
            ensures
                b == (c.def_id == def_id),
        {
            c.def_id == def_id
        };
        let found = position(&self.cards, test, Ghost(numbered_as(def_id)));
        match found {
            Some(i) => Some(self.cards[i].name.as_str()),
            None => None,
        }
    }

    /// The id of the blueprint with a key, or `None` for an unknown key.
    pub fn blueprint_def_id(&self, key: &str) -> (r: Option<u32>)
        ensures
            r == self.blueprint_keyed(key@),
    {
        let test = |d: &BlueprintDef| -> (b: bool)
            ensures
                b == (d.key@ == key@),
        {
            str_eq(d.key.as_str(), key)
        };
        let found = position(&self.blueprints, test, Ghost(keyed_as(key@)));
        match found {
            Some(i) => Some(self.blueprints[i].id),
            None => None,
        }
    }

    /// The id of the blueprint that spawns a card, or `None` if none does.
    pub fn blueprint_id_for_card(&self, card: &str) -> (r: Option<u32>)
        ensures
            r == self.blueprint_spawning(card@),
    {
        let test = |d: &BlueprintDef| -> (b: bool)
            ensures
                b == (d.card@ == card@),
        {
            str_eq(d.card.as_str(), card)
        };
        let found = position(&self.blueprints, test, Ghost(spawning_card(card@)));
        match found {
            Some(i) => Some(self.blueprints[i].id),
            None => None,
        }
    }

    /// The recipe of a name, or `None` for an unknown name.
    pub fn recipe(&self, name: &str) -> (r: Option<&Recipe<B>>)
        ensures
            match r {
                Some(recipe) => self.recipe_named(name@) == Some(*recipe) && recipe.name@ == name@,
                None => self.recipe_named(name@) is None,
            },
    {
        let test = |p: &Recipe<B>| -> (b: bool)
            ensures
                b == (p.name@ == name@),
        {
            str_eq(p.name.as_str(), name)
        };
        let found = position(&self.recipes, test, Ghost(recipe_of::<B>(name@)));
        match found {
            Some(i) => Some(&self.recipes[i]),
            None => None,
        }
    }
}

} // verus!
