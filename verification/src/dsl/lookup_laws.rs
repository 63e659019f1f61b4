//! What the lookups over loaded definitions find, and what a stock word says.

use vstd::prelude::*;
use vstd::arithmetic::power2::pow2;
use crate::dsl::bridge::Card;
use crate::dsl::loader::{Bundle, CardDef, Recipe};

verus! {

use crate::codec::flags::low_bits;
use crate::dsl::bridge::{
    declared_slot,
    declared_slot_bits,
    decoded_stock,
    slot_bits,
    slot_for,
    slot_of,
    slot_value,
};
use crate::dsl::defs::{aspect_of, defined_aspect};
use crate::dsl::loader::{
    card_of,
    hook_of,
    keyed_as,
    numbered_as,
    packed_as,
    recipe_of,
    spawning_card,
};
use crate::sequences::lemma_first_where;
use vstd::arithmetic::power2::{lemma2_to64, lemma_pow2_pos, lemma_pow2_strictly_increases};
use vstd::bits::{lemma_u32_shr_is_div, lemma_u64_shl_is_mul, low_bits_mask};

/// The hook of a name is the first with that name.
pub proof fn law_hook_is_the_first_of_its_name<B>(recipe: Recipe<B>, name: Seq<char>, i: int)
    ensures
        0 <= i < recipe.hooks@.len() && recipe.hooks@[i].name@ == name && (forall|j: int|
            0 <= j < i ==> (#[trigger] recipe.hooks@[j]).name@ != name)
            ==> recipe.hook_named(name) == Some(recipe.hooks@[i]),
        (forall|j: int|
            0 <= j < recipe.hooks@.len() ==> (#[trigger] recipe.hooks@[j]).name@ != name)
            ==> recipe.hook_named(name) is None,
{
    lemma_first_where(recipe.hooks@, hook_of::<B>(name), i);
}

/// The name of a packed definition is that of the first entry for it.
pub proof fn law_packed_name_is_the_first<B>(bundle: Bundle<B>, packed: u16, i: int)
    ensures
        0 <= i < bundle.packed@.len() && bundle.packed@[i].packed == packed && (forall|j: int|
            0 <= j < i ==> (#[trigger] bundle.packed@[j]).packed != packed)
            ==> bundle.packed_name(packed) == Some(bundle.packed@[i].name@),
        (forall|j: int|
            0 <= j < bundle.packed@.len() ==> (#[trigger] bundle.packed@[j]).packed != packed)
            ==> bundle.packed_name(packed) is None,
{
    lemma_first_where(bundle.packed@, packed_as(packed), i);
}

/// The definition of a name is the first with that name.
pub proof fn law_definition_is_the_first_of_its_name<B>(bundle: Bundle<B>, name: Seq<char>, i: int)
    ensures
        0 <= i < bundle.cards@.len() && bundle.cards@[i].name@ == name && (forall|j: int|
            0 <= j < i ==> (#[trigger] bundle.cards@[j]).name@ != name)
            ==> bundle.card_named(name) == Some(bundle.cards@[i]),
        (forall|j: int|
            0 <= j < bundle.cards@.len() ==> (#[trigger] bundle.cards@[j]).name@ != name)
            ==> bundle.card_named(name) is None,
{
    lemma_first_where(bundle.cards@, card_of(name), i);
}

/// The definition of an id is the first with that id.
pub proof fn law_definition_is_the_first_of_its_id<B>(bundle: Bundle<B>, def_id: u32, i: int)
    ensures
        0 <= i < bundle.cards@.len() && bundle.cards@[i].def_id == def_id && (forall|j: int|
            0 <= j < i ==> (#[trigger] bundle.cards@[j]).def_id != def_id)
            ==> bundle.card_with_id(def_id) == Some(bundle.cards@[i]),
        (forall|j: int|
            0 <= j < bundle.cards@.len() ==> (#[trigger] bundle.cards@[j]).def_id != def_id)
            ==> bundle.card_with_id(def_id) is None,
{
    lemma_first_where(bundle.cards@, numbered_as(def_id), i);
}

/// The blueprint of a key is the first with that key.
pub proof fn law_blueprint_is_the_first_of_its_key<B>(bundle: Bundle<B>, key: Seq<char>, i: int)
    ensures
        0 <= i < bundle.blueprints@.len() && bundle.blueprints@[i].key@ == key && (forall|j: int|
            0 <= j < i ==> (#[trigger] bundle.blueprints@[j]).key@ != key)
            ==> bundle.blueprint_keyed(key) == Some(bundle.blueprints@[i].id),
        (forall|j: int|
            0 <= j < bundle.blueprints@.len() ==> (#[trigger] bundle.blueprints@[j]).key@ != key)
            ==> bundle.blueprint_keyed(key) is None,
{
    lemma_first_where(bundle.blueprints@, keyed_as(key), i);
}

/// The blueprint of a card is the first that spawns it.
pub proof fn law_blueprint_is_the_first_for_its_card<B>(bundle: Bundle<B>, card: Seq<char>, i: int)
    ensures
        0 <= i < bundle.blueprints@.len() && bundle.blueprints@[i].card@ == card && (forall|j: int|
            0 <= j < i ==> (#[trigger] bundle.blueprints@[j]).card@ != card)
            ==> bundle.blueprint_spawning(card) == Some(bundle.blueprints@[i].id),
        (forall|j: int|
            0 <= j < bundle.blueprints@.len() ==> (#[trigger] bundle.blueprints@[j]).card@ != card)
            ==> bundle.blueprint_spawning(card) is None,
{
    lemma_first_where(bundle.blueprints@, spawning_card(card), i);
}

/// The recipe of a name is the first with that name.
pub proof fn law_recipe_is_the_first_of_its_name<B>(bundle: Bundle<B>, name: Seq<char>, i: int)
    ensures
        0 <= i < bundle.recipes@.len() && bundle.recipes@[i].name@ == name && (forall|j: int|
            0 <= j < i ==> (#[trigger] bundle.recipes@[j]).name@ != name)
            ==> bundle.recipe_named(name) == Some(bundle.recipes@[i]),
        (forall|j: int|
            0 <= j < bundle.recipes@.len() ==> (#[trigger] bundle.recipes@[j]).name@ != name)
            ==> bundle.recipe_named(name) is None,
{
    lemma_first_where(bundle.recipes@, recipe_of::<B>(name), i);
}

/// The value of an aspect is that of the first aspect of its name.
pub proof fn law_aspect_is_the_first_of_its_name(def: CardDef, name: Seq<char>, i: int)
    ensures
        0 <= i < def.aspects@.len() && def.aspects@[i].name@ == name && (forall|j: int|
            0 <= j < i ==> (#[trigger] def.aspects@[j]).name@ != name)
            ==> def.aspect(name) == Some(def.aspects@[i].value),
        (forall|j: int|
            0 <= j < def.aspects@.len() ==> (#[trigger] def.aspects@[j]).name@ != name)
            ==> def.aspect(name) is None,
{
    lemma_first_where(def.aspects@, aspect_of(name), i);
}

/// The slot for an aspect is the first that is for it.
pub proof fn law_slot_is_the_first_for_its_aspect(def: CardDef, aspect: Seq<char>, i: int)
    ensures
        0 <= i < def.stock@.len() && def.stock@[i].aspect@ == aspect && (forall|j: int|
            0 <= j < i ==> (#[trigger] def.stock@[j]).aspect@ != aspect)
            ==> slot_of(def, aspect) == Some(i),
        (forall|j: int|
            0 <= j < def.stock@.len() ==> (#[trigger] def.stock@[j]).aspect@ != aspect)
            ==> slot_of(def, aspect) is None,
{
    lemma_first_where(def.stock@, slot_for(aspect), i);
}

/// What a recipe runs at a hook: the body of the hook of that name, nothing without one.
pub proof fn law_missing_hook_runs_nothing<B>(recipe: Recipe<B>, name: Seq<char>)
    ensures
        recipe.hook_named(name) matches Some(hook) ==> recipe.hook_body(name) == hook.body@,
        recipe.hook_named(name) is None ==> recipe.hook_body(name).len() == 0,
{
}

/// An aspect of a packed definition is that of the definition its name leads to.
pub proof fn law_packed_aspects_go_by_name<B>(bundle: Bundle<B>, packed: u16, name: Seq<char>)
    ensures
        match bundle.packed_name(packed) {
            Some(card) => match bundle.card_named(card) {
                Some(def) => defined_aspect(bundle, packed, name) == def.aspect(name),
                None => defined_aspect(bundle, packed, name) is None,
            },
            None => defined_aspect(bundle, packed, name) is None,
        },
{
}

/// The slots of a card go by its definition; an unknown card has none.
pub proof fn law_slots_go_by_definition<B>(
    bundle: Bundle<B>,
    name: Seq<char>,
    aspect: Seq<char>,
    stock: u32,
)
    ensures
        match bundle.card_named(name) {
            Some(def) => {
                &&& declared_slot(bundle, name, aspect) == slot_of(def, aspect)
                &&& match slot_of(def, aspect) {
                    Some(i) => declared_slot_bits(bundle, name, aspect) == Some(
                        (def.stock@[i].shift, def.stock@[i].width),
                    ),
                    None => declared_slot_bits(bundle, name, aspect) is None,
                }
                &&& decoded_stock(bundle, name, stock).len() == def.stock@.len()
                &&& forall|i: int|
                    0 <= i < def.stock@.len() ==> #[trigger] decoded_stock(bundle, name, stock)[i]
                        == slot_value(stock, def.stock@[i].shift, def.stock@[i].width)
            },
            None => declared_slot(bundle, name, aspect) is None && declared_slot_bits(
                bundle,
                name,
                aspect,
            ) is None && decoded_stock(bundle, name, stock).len() == 0,
        },
{
}

/// A word of low bits is one less than a power of two.
pub(crate) proof fn lemma_low_bits(width: u8)
    requires
        width <= 32,
    ensures
        low_bits(width) == pow2(width as nat) - 1,
        pow2(width as nat) <= 0x1_0000_0000,
        width < 32 ==> pow2(width as nat) < 0x1_0000_0000,
{
    lemma2_to64();
    lemma_pow2_pos(width as nat);
    if width < 32 {
        lemma_pow2_strictly_increases(width as nat, 32);
    }
    let wide = width as u64;
    lemma_u64_shl_is_mul(1, wide);
    let x = ((1u64 << wide) - 1) as u64;
    assert(1u64 << width == 1u64 << wide) by (bit_vector)
        requires
            wide == width as u64,
            width <= 32,
    ;
    assert(x & 0xFFFF_FFFFu64 == x) by (bit_vector)
        requires
            x <= 0xFFFF_FFFFu64,
    ;
}

/// A stock slot is a digit of the stock word: the word divided by two to the shift, modulo
/// two to the width; a width past 32 counts as 32.
pub proof fn law_slot_is_a_digit(stock: u32, shift: u8, width: u8)
    requires
        shift < 32,
    ensures
        slot_bits(width) == if width < 32 {
            width
        } else {
            32
        },
        slot_value(stock, shift, width) == stock as int / (pow2(shift as nat) as int) % (pow2(
            slot_bits(width) as nat,
        ) as int),
{
    let bits = slot_bits(width);
    let wide = shift as u32;
    let low = low_bits(bits);
    lemma_low_bits(bits);
    lemma_u32_shr_is_div(stock, wide);
    let x = stock >> wide;
    assert((stock & (low << shift)) >> shift == (stock >> wide) & low) by (bit_vector)
        requires
            wide == shift as u32,
            shift < 32,
    ;
    if bits == 32 {
        lemma2_to64();
        assert(x & 0xFFFF_FFFFu32 == x) by (bit_vector);
    } else {
        vstd::bits::lemma_u32_low_bits_mask_is_mod(x, bits as nat);
        assert(low == low_bits_mask(bits as nat) as u32);
    }
    let unit = pow2(shift as nat);
    let span = pow2(bits as nat);
    assert(slot_value(stock, shift, width) == x & low);
    assert(x == stock as nat / unit);
    assert(x & low == x as nat % span) by {
        if bits < 32 {
            assert(x & low == x % (span as u32));
        } else {
            assert(low == 0xFFFF_FFFFu32);
            vstd::arithmetic::div_mod::lemma_small_mod(x as nat, span);
        }
    }
}

/// A bundle is well formed just where every stock slot starts below bit 32, however wide.
pub proof fn law_well_formed_bundles<B>(bundle: Bundle<B>)
    ensures
        bundle.wf() <==> forall|i: int, j: int|
            0 <= i < bundle.cards@.len() && 0 <= j < bundle.cards@[i].stock@.len() ==> (
            #[trigger] bundle.cards@[i].stock@[j]).shift < 32,
{
}

/// A card says its definition and the values of its slots, in their order.
pub proof fn law_what_a_card_says(card: Card)
    ensures
        card@.def_id == card.def_id,
        card@.stock == card.stock@,
{
}

} // verus!
