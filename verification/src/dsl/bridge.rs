//! Between stored rows and the cards a recipe reads: decoding a stock word by the
//! slots that the card's definition declares.

use vstd::prelude::*;
use crate::codec::flags::FlagField;
use crate::dsl::loader::{Bundle, CardDef, StockSlot};
use crate::sequences::position;
use crate::text::str_eq;

verus! {

use crate::codec::flags::field_value;
use crate::sequences::first_where;

/// A card as a recipe reads it: its catalog id and the values of its stock slots.
#[derive(Debug, PartialEq, Eq)]
pub struct Card {
    pub def_id: u32,
    pub stock: Vec<i64>,
}

/// What a [`Card`] says.
pub struct CardModel {
    pub def_id: u32,
    pub stock: Seq<i64>,
}

impl View for Card {
    type V = CardModel;

    open spec fn view(&self) -> CardModel {
        CardModel { def_id: self.def_id, stock: self.stock@ }
    }
}

/// The number of bits a slot of a declared width has: the stock word has 32.
pub open spec fn slot_bits(width: u8) -> u8 {
    if width >= 32 {
        32
    } else {
        width
    }
}

/// The value a stock word holds in the slot at `shift`, `width` bits wide.
pub open spec fn slot_value(stock: u32, shift: u8, width: u8) -> u32 {
    field_value(stock, shift, slot_bits(width))
}

/// The field a slot occupies.
pub fn slot_field(shift: u8, width: u8) -> (r: FlagField)
    ensures
        r == (FlagField { shift, width: slot_bits(width) }),
{
    if width >= 32 {
        FlagField { shift, width: 32 }
    } else {
        FlagField { shift, width }
    }
}

/// The values of a stock word in each of the slots.
pub open spec fn slot_values(slots: Seq<StockSlot>, stock: u32) -> Seq<i64> {
    slots.map_values(|s: StockSlot| slot_value(stock, s.shift, s.width) as i64)
}

/// Whether a slot is for an aspect.
pub open spec fn slot_for(aspect: Seq<char>) -> spec_fn(StockSlot) -> bool {
    |s: StockSlot| s.aspect@ == aspect
}

/// The slot a card definition declares for an aspect.
pub open spec fn slot_of(def: CardDef, aspect: Seq<char>) -> Option<int> {
    first_where(def.stock@, slot_for(aspect))
}

/// The position of the slot that the named card declares for an aspect.
pub open spec fn declared_slot<B>(bundle: Bundle<B>, name: Seq<char>, aspect: Seq<char>) -> Option<int> {
    match bundle.card_named(name) {
        Some(def) => slot_of(def, aspect),
        None => None,
    }
}

/// The shift and width of the slot that the named card declares for an aspect.
pub open spec fn declared_slot_bits<B>(bundle: Bundle<B>, name: Seq<char>, aspect: Seq<char>) -> Option<
    (u8, u8),
> {
    match bundle.card_named(name) {
        Some(def) => match slot_of(def, aspect) {
            Some(i) => Some((def.stock@[i].shift, def.stock@[i].width)),
            None => None,
        },
        None => None,
    }
}

/// The stock values that a row of the named card holds; none for an unknown card.
pub open spec fn decoded_stock<B>(bundle: Bundle<B>, name: Seq<char>, stock: u32) -> Seq<i64> {
    match bundle.card_named(name) {
        Some(def) => slot_values(def.stock@, stock),
        None => Seq::empty(),
    }
}

/// Decode a stock word by the slots of the named card, in their order.
pub fn stock_to_vec<B>(bundle: &Bundle<B>, name: &str, stock: u32) -> (r: Vec<i64>)
    requires
        bundle.wf(),
    ensures
        r@ == decoded_stock(*bundle, name@, stock),
{
    let mut out: Vec<i64> = Vec::new();
    if let Some(def) = bundle.card(name) {
        for i in 0..def.stock.len()
            invariant
                out@ =~= slot_values(def.stock@.take(i as int), stock),
                forall|j: int| 0 <= j < def.stock@.len() ==> (#[trigger] def.stock@[j]).shift < 32,
        {
            let field = slot_field(def.stock[i].shift, def.stock[i].width);
            out.push(((stock & field.mask()) >> field.shift) as i64);
        }
        assert(def.stock@.take(def.stock@.len() as int) =~= def.stock@);
    }
    out
}

fn find_slot(def: &CardDef, aspect: &str) -> (r: Option<usize>)
    ensures
        match r {
            Some(i) => slot_of(*def, aspect@) == Some(i as int) && i < def.stock@.len(),
            None => slot_of(*def, aspect@) is None,
        },
{
    let test = |s: &StockSlot| -> (b: bool)
        ensures
            b == (s.aspect@ == aspect@),
    {
        str_eq(s.aspect.as_str(), aspect)
    };
    position(&def.stock, test, Ghost(slot_for(aspect@)))
}

/// The shift and width of the slot that the named card declares for an aspect.
pub fn stock_slot_bits<B>(bundle: &Bundle<B>, name: &str, aspect: &str) -> (r: Option<(u8, u8)>)
    ensures
        r == declared_slot_bits(*bundle, name@, aspect@),
        bundle.wf() ==> (r matches Some(bits) ==> bits.0 < 32),
{
    match bundle.card(name) {
        Some(def) => match find_slot(def, aspect) {
            Some(i) => Some((def.stock[i].shift, def.stock[i].width)),
            None => None,
        },
        None => None,
    }
}

/// The position of the slot that the named card declares for an aspect.
pub fn stock_slot_for_aspect<B>(bundle: &Bundle<B>, name: &str, aspect: &str) -> (r: Option<usize>)
    ensures
        match r {
            Some(i) => declared_slot(*bundle, name@, aspect@) == Some(i as int),
            None => declared_slot(*bundle, name@, aspect@) is None,
        },
{
    match bundle.card(name) {
        Some(def) => find_slot(def, aspect),
        None => None,
    }
}

} // verus!
