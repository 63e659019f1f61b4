//! What a translated recipe guarantees.

use vstd::prelude::*;
use crate::codec::packed::INVENTORY_LAYER;
use crate::codec::plan::HoldKinds;
use crate::dsl::loader::Bundle;
use crate::dsl::recipe::Frame;
use crate::dsl::vm::{Hold, VmEffect};
use crate::state::recipe_state::CardStore;

verus! {

use crate::codec::flags::{low_bits, window};
use crate::codec::packed::{law_zone_parts, zone_cell, zone_owner, zone_surface};
use crate::codec::plan::EffectModel;
use crate::dsl::bridge::{slot_bits, slot_value};
use crate::rules::dsl_recipe::{
    card_holds,
    card_styles,
    effect_of,
    effects_of,
    hold_kinds,
    merged,
    stock_after,
    stock_result,
    style_number,
    target,
    unplaced_holds,
    RecipeError,
};

/// Whether entry `i` binds the slot of `card`: `None` stands for the synthetic tile,
/// whose slots have no card placed at them.
pub open spec fn binds(
    frame: Frame,
    holds: Seq<(String, Hold)>,
    i: int,
    card: Option<u32>,
) -> bool {
    0 <= i < holds.len() && frame.card(holds[i].0@) == card
}

/// Whether some verb on the slot of `card` takes it exclusively.
pub open spec fn some_exclusive(
    frame: Frame,
    holds: Seq<(String, Hold)>,
    card: Option<u32>,
) -> bool {
    exists|i: int| #[trigger] binds(frame, holds, i, card) && hold_kinds(holds[i].1).slot_hold
}

/// Whether some verb on the slot of `card` shares it.
pub open spec fn some_shared(
    frame: Frame,
    holds: Seq<(String, Hold)>,
    card: Option<u32>,
) -> bool {
    exists|i: int| #[trigger] binds(frame, holds, i, card) && hold_kinds(holds[i].1).slot_share
}

/// Whether some verb on the slot of `card` pins it.
pub open spec fn some_pinning(
    frame: Frame,
    holds: Seq<(String, Hold)>,
    card: Option<u32>,
) -> bool {
    exists|i: int| #[trigger] binds(frame, holds, i, card) && hold_kinds(holds[i].1).position_hold
}

/// The holds that the verbs on the slot of `card` make together.
pub open spec fn joint_holds(
    frame: Frame,
    holds: Seq<(String, Hold)>,
    card: Option<u32>,
) -> HoldKinds {
    HoldKinds {
        slot_hold: some_exclusive(frame, holds, card),
        slot_share: some_shared(frame, holds, card),
        position_hold: some_pinning(frame, holds, card),
    }
}

/// Joint holds with one verb more.
proof fn lemma_joint_holds(frame: Frame, holds: Seq<(String, Hold)>, card: Option<u32>)
    requires
        holds.len() > 0,
    ensures
        joint_holds(frame, holds, card) == if frame.card(holds.last().0@) == card {
            merged(
                joint_holds(frame, holds.drop_last(), card),
                hold_kinds(holds.last().1),
            )
        } else {
            joint_holds(frame, holds.drop_last(), card)
        },
        (exists|i: int| #[trigger] binds(frame, holds, i, card)) <==> (frame.card(holds.last().0@)
            == card || exists|i: int| #[trigger] binds(frame, holds.drop_last(), i, card)),
{
    let front = holds.drop_last();
    let last = holds.len() - 1;
    assert forall|i: int| 0 <= i < last implies #[trigger] binds(frame, holds, i, card) == binds(
        frame,
        front,
        i,
        card,
    ) by {
        assert(front[i] == holds[i]);
    }
    assert(binds(frame, holds, last, card) == (frame.card(holds.last().0@) == card));
    assert forall|i: int| #[trigger] binds(frame, front, i, card) implies binds(
        frame,
        holds,
        i,
        card,
    ) && holds[i] == front[i] by {
        assert(front[i] == holds[i]);
    }
    assert forall|i: int| #[trigger] binds(frame, holds, i, card) && i != last implies binds(
        frame,
        front,
        i,
        card,
    ) && front[i] == holds[i] by {
        assert(front[i] == holds[i]);
    }
}

/// A plan holds a card if and only if the recipe binds its slot, and with each kind
/// of hold that some verb on the slot asks for, no more.
pub proof fn law_card_holds_are_joint(frame: Frame, holds: Seq<(String, Hold)>, card_id: u32)
    ensures
        card_holds(frame, holds).contains_key(card_id) <==> exists|i: int| #[trigger]
            binds(frame, holds, i, Some(card_id)),
        card_holds(frame, holds).contains_key(card_id) ==> card_holds(frame, holds)[card_id]
            == joint_holds(frame, holds, Some(card_id)),
    decreases holds.len(),
{
    if holds.len() > 0 {
        law_card_holds_are_joint(frame, holds.drop_last(), card_id);
        lemma_joint_holds(frame, holds, Some(card_id));
    }
}

/// A plan holds the synthetic tile if and only if the recipe binds a slot with no
/// card, and with each kind of hold that some verb on such a slot asks for, no more.
pub proof fn law_tile_holds_are_joint(frame: Frame, holds: Seq<(String, Hold)>)
    ensures
        unplaced_holds(frame, holds) == if exists|i: int| #[trigger] binds(frame, holds, i, None) {
            Some(joint_holds(frame, holds, None))
        } else {
            None
        },
    decreases holds.len(),
{
    if holds.len() > 0 {
        law_tile_holds_are_joint(frame, holds.drop_last());
        lemma_joint_holds(frame, holds, None);
    }
}

/// The style of a bound card is that of the last style given to its slot.
pub proof fn law_last_style_wins(frame: Frame, styles: Seq<(String, String)>, i: int, card_id: u32)
    requires
        0 <= i < styles.len(),
        frame.card(styles[i].0@) == Some(card_id),
        forall|j: int|
            i < j < styles.len() ==> frame.card((#[trigger] styles[j]).0@) != Some(card_id),
    ensures
        card_styles(frame, styles).contains_key(card_id),
        card_styles(frame, styles)[card_id] == style_number(styles[i].1@),
    decreases styles.len(),
{
    if i < styles.len() - 1 {
        let front = styles.drop_last();
        assert(front[i] == styles[i]);
        assert forall|j: int| i < j < front.len() implies frame.card((#[trigger] front[j]).0@)
            != Some(card_id) by {
            assert(front[j] == styles[j]);
        }
        law_last_style_wins(frame, front, i, card_id);
        assert(styles[styles.len() - 1] == styles.last());
    }
}

/// Effects map one to one and in order; where one has an error there is no plan.
pub proof fn law_effects_map_one_to_one<B, S: CardStore>(
    bundle: Bundle<B>,
    store: &S,
    frame: Frame,
    tile: Option<u32>,
    effects: Seq<VmEffect>,
    now_ms: u64,
)
    ensures
        match effects_of(bundle, store, frame, tile, effects, now_ms) {
            Ok(done) => done.len() == effects.len() && forall|i: int|
                0 <= i < effects.len() ==> effect_of(
                    bundle,
                    store,
                    frame,
                    tile,
                    #[trigger] effects[i],
                    now_ms,
                ) == Ok::<EffectModel, RecipeError>(done[i]),
            Err(e) => exists|i: int|
                0 <= i < effects.len() && effect_of(
                    bundle,
                    store,
                    frame,
                    tile,
                    #[trigger] effects[i],
                    now_ms,
                ) == Err::<EffectModel, RecipeError>(e),
        },
    decreases effects.len(),
{
    if effects.len() > 0 {
        let front = effects.drop_last();
        law_effects_map_one_to_one(bundle, store, frame, tile, front, now_ms);
        assert(effects[effects.len() - 1] == effects.last());
        match effects_of(bundle, store, frame, tile, front, now_ms) {
            Ok(done) => {
                assert forall|i: int| 0 <= i < front.len() implies effect_of(
                    bundle,
                    store,
                    frame,
                    tile,
                    #[trigger] effects[i],
                    now_ms,
                ) == Ok::<EffectModel, RecipeError>(done[i]) by {
                    assert(front[i] == effects[i]);
                }
            },
            Err(e) => {
                let i = choose|i: int|
                    0 <= i < front.len() && effect_of(
                        bundle,
                        store,
                        frame,
                        tile,
                        #[trigger] front[i],
                        now_ms,
                    ) == Err::<EffectModel, RecipeError>(e);
                assert(effects[i] == front[i]);
            },
        }
    }
}

/// A created card lands in the inventory of the card its target leads to, and is
/// owned by it.
pub proof fn law_created_cards_land_in_an_inventory<B, S: CardStore>(
    bundle: Bundle<B>,
    store: &S,
    frame: Frame,
    tile: Option<u32>,
    effect: VmEffect,
    now_ms: u64,
)
    ensures
        effect_of(bundle, store, frame, tile, effect, now_ms) matches Ok(
            EffectModel::Create { def_key, surface, macro_zone, owner_id },
        ) ==> {
            &&& effect matches VmEffect::Create { def, target: path } && target(
                frame,
                store,
                path@,
                now_ms,
            ) == Ok::<(u32, Option<Seq<char>>), RecipeError>((owner_id, Some("inventory"@)))
            &&& surface == INVENTORY_LAYER
            &&& zone_owner(macro_zone) == owner_id
            &&& zone_surface(macro_zone) == INVENTORY_LAYER
            &&& zone_cell(macro_zone) == 0
        },
{
    if let VmEffect::Create { def, target: path } = effect {
        if let Ok(found) = target(frame, store, path@, now_ms) {
            law_zone_parts(found.0, INVENTORY_LAYER, 0, 0);
        }
    }
}

/// A stock change is read back: the slot then holds the result, which is what the
/// slot can hold; the bits outside the slot stay as they are.
pub proof fn law_stock_change_reads_back(stock: u32, shift: u8, width: u8, delta: i64, abs: bool)
    requires
        shift + slot_bits(width) <= 32,
        shift < 32,
    ensures
        slot_value(stock_after(stock, shift, width, delta, abs), shift, width) == stock_result(
            stock,
            shift,
            width,
            delta,
            abs,
        ),
        stock_after(stock, shift, width, delta, abs) & !window(shift, slot_bits(width)) == stock
            & !window(shift, slot_bits(width)),
        stock_result(stock, shift, width, delta, abs) <= low_bits(slot_bits(width)),
{
    let bits = slot_bits(width);
    let cap = low_bits(bits);
    let value = stock_result(stock, shift, width, delta, abs);
    assert((((stock & !(low_bits(bits) << shift)) | (value << shift)) & (low_bits(bits) << shift))
        >> shift == value && ((stock & !(low_bits(bits) << shift)) | (value << shift)) & !(low_bits(
        bits,
    ) << shift) == stock & !(low_bits(bits) << shift)) by (bit_vector)
        requires
            shift < 32,
            bits <= 32,
            shift + bits <= 32,
            value <= low_bits(bits),
    ;
}

/// A stock change leaves the slots beside it alone.
pub proof fn law_stock_change_keeps_other_slots(
    stock: u32,
    shift: u8,
    width: u8,
    delta: i64,
    abs: bool,
    other_shift: u8,
    other_width: u8,
)
    requires
        shift + slot_bits(width) <= 32,
        shift < 32,
        window(shift, slot_bits(width)) & window(other_shift, slot_bits(other_width)) == 0,
    ensures
        slot_value(stock_after(stock, shift, width, delta, abs), other_shift, other_width)
            == slot_value(stock, other_shift, other_width),
{
    law_stock_change_reads_back(stock, shift, width, delta, abs);
    let before = stock;
    let after = stock_after(stock, shift, width, delta, abs);
    let own = window(shift, slot_bits(width));
    let other = window(other_shift, slot_bits(other_width));
    assert(after & other == before & other) by (bit_vector)
        requires
            after & !own == before & !own,
            own & other == 0,
    ;
}

/// A relative change by nothing leaves the stock word alone.
pub proof fn law_zero_stock_change_keeps_word(stock: u32, shift: u8, width: u8)
    requires
        shift + slot_bits(width) <= 32,
        shift < 32,
    ensures
        stock_after(stock, shift, width, 0, false) == stock,
{
    let bits = slot_bits(width);
    let value = slot_value(stock, shift, width);
    assert((stock & (low_bits(bits) << shift)) >> shift <= low_bits(bits) && (stock & !(low_bits(
        bits,
    ) << shift)) | (((stock & (low_bits(bits) << shift)) >> shift) << shift) == stock)
        by (bit_vector)
        requires
            shift < 32,
            bits <= 32,
            shift + bits <= 32,
    ;
}

} // verus!
