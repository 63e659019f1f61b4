//! What a recipe's effects come to, told from the rows, the paths and the definitions.

use vstd::prelude::*;
use vstd::arithmetic::power2::pow2;
use crate::codec::plan::{ActionPlan, Effect, HoldKinds, StockOp};
use crate::dsl::bridge::Card;
use crate::dsl::loader::{Bundle, Recipe};
use crate::dsl::recipe::Frame;
use crate::dsl::vm::{Hold, MatchOutcome, PlanOutcome, VmEffect};
use crate::rules::dsl_recipe::Lookup;
use crate::state::recipe_state::CardStore;

verus! {

use crate::codec::flags::low_bits;
use crate::codec::plan::{EffectModel, PlanModel};
use crate::dsl::bridge::{
    declared_slot,
    declared_slot_bits,
    decoded_stock,
    slot_bits,
    slot_value,
    CardModel,
};
use crate::dsl::lookup_laws::{law_slot_is_a_digit, lemma_low_bits};
use crate::rules::dsl_recipe::{
    accepted,
    begun,
    card_bound,
    card_holds,
    card_styles,
    effect_of,
    effects_of,
    evaluated,
    plan_is,
    stock_after,
    stock_result,
    target,
    target_is,
    tile_card,
    translated,
    unplaced_holds,
    RecipeError,
};
use crate::rules::recipe_laws::{
    binds,
    law_card_holds_are_joint,
    law_last_style_wins,
    law_stock_change_reads_back,
    law_tile_holds_are_joint,
};
use crate::text::{after_colons, debug_text, decimal_text, hex_text};
use vstd::arithmetic::div_mod::lemma_small_mod;
use vstd::arithmetic::power2::{lemma2_to64, lemma_pow2_adds, lemma_pow2_pos};
use vstd::bits::lemma_u32_shl_is_mul;

/// A number, not below 0 and not above `most`.
pub open spec fn held_within(value: int, most: int) -> int {
    if value < 0 {
        0
    } else if value > most {
        most
    } else {
        value
    }
}

/// A stock change gives a slot the value asked for, or the old one plus the difference
/// asked for, held within what the slot's bits can say.
pub proof fn law_stock_result_is_held_within_the_slot(
    stock: u32,
    shift: u8,
    width: u8,
    delta: i64,
    abs: bool,
)
    requires
        shift < 32,
    ensures
        ({
            let span = pow2(slot_bits(width) as nat) as int;
            let old_value = stock as int / (pow2(shift as nat) as int) % span;
            stock_result(stock, shift, width, delta, abs) == held_within(
                if abs {
                    delta as int
                } else {
                    old_value + delta
                },
                span - 1,
            )
        }),
{
    law_slot_is_a_digit(stock, shift, width);
    lemma_low_bits(slot_bits(width));
}

/// A stock change alters the stock word by the difference of the slot's values, in units of
/// the slot.
pub proof fn law_stock_word_changes_by_the_difference(
    stock: u32,
    shift: u8,
    width: u8,
    delta: i64,
    abs: bool,
)
    requires
        shift < 32,
        shift + slot_bits(width) <= 32,
    ensures
        stock_after(stock, shift, width, delta, abs) - stock == (stock_result(
            stock,
            shift,
            width,
            delta,
            abs,
        ) - slot_value(stock, shift, width)) * pow2(shift as nat),
{
    let bits = slot_bits(width);
    let low = low_bits(bits);
    let value = stock_result(stock, shift, width, delta, abs);
    let cur = slot_value(stock, shift, width);
    let wide = shift as u32;
    law_stock_change_reads_back(stock, shift, width, delta, abs);
    let mask = low << shift;
    let a = value << wide;
    let b = cur << wide;
    assert(((stock & !mask) | (value << shift)) - stock == (value << wide) - (cur << wide) && value
        << wide >= value && cur << wide >= cur) by (bit_vector)
        requires
            wide == shift as u32,
            shift < 32,
            bits <= 32,
            shift + bits <= 32,
            low == low_bits(bits),
            mask == low << shift,
            value <= low,
            cur == (stock & mask) >> shift,
    ;
    lemma_shifted(value, bits, shift);
    assert(cur <= low) by (bit_vector)
        requires
            shift < 32,
            mask == low << shift,
            cur == (stock & mask) >> shift,
    ;
    lemma_shifted(cur, bits, shift);
    assert(a - b == (value - cur) * pow2(shift as nat)) by (nonlinear_arith)
        requires
            a == value * pow2(shift as nat),
            b == cur * pow2(shift as nat),
    ;
}

/// A slot that runs over the end of the stock word keeps what fits of its value; the word
/// below the slot stays.
pub proof fn law_stock_of_a_slot_over_the_end(
    stock: u32,
    shift: u8,
    width: u8,
    delta: i64,
    abs: bool,
)
    requires
        shift < 32,
        shift + slot_bits(width) > 32,
    ensures
        ({
            let after = stock_after(stock, shift, width, delta, abs) as int;
            let unit = pow2(shift as nat) as int;
            &&& after % unit == stock as int % unit
            &&& after / unit == stock_result(stock, shift, width, delta, abs) as int % (pow2(
                (32 - shift) as nat,
            ) as int)
        }),
{
    let bits = slot_bits(width);
    let rest = (32 - shift) as u8;
    let value = stock_result(stock, shift, width, delta, abs);
    let after = stock_after(stock, shift, width, delta, abs);
    let zero = 0u8;
    let all = 32u8;
    let mask = low_bits(bits) << shift;
    assert(after == (stock & !mask) | (value << shift));
    assert((after & (low_bits(shift) << zero)) >> zero == (stock & (low_bits(shift) << zero)) >> zero
        && (after & (low_bits(all) << shift)) >> shift == (value & (low_bits(rest) << zero)) >> zero)
        by (bit_vector)
        requires
            shift < 32,
            bits <= 32,
            shift + bits > 32,
            rest == 32 - shift,
            zero == 0,
            all == 32,
            mask == low_bits(bits) << shift,
            after == (stock & !mask) | (value << shift),
    ;
    assert(slot_value(after, 0, shift) == slot_value(stock, 0, shift));
    assert(slot_value(after, shift, 32) == slot_value(value, 0, rest));
    law_slot_is_a_digit(after, 0, shift);
    law_slot_is_a_digit(stock, 0, shift);
    law_slot_is_a_digit(after, shift, 32);
    law_slot_is_a_digit(value, 0, rest);
    lemma2_to64();
    lemma_pow2_pos(shift as nat);
    let unit = pow2(shift as nat) as int;
    let one = pow2(zero as nat) as int;
    assert(one == 1);
    assert(after as int / one == after && stock as int / one == stock && value as int / one
        == value) by (nonlinear_arith)
        requires
            one == 1,
    ;
    assert(pow2(all as nat) == 0x1_0000_0000);
    let top = after as int / unit;
    assert(0 <= top <= after) by (nonlinear_arith)
        requires
            top == after as int / unit,
            unit >= 1,
    ;
    lemma_small_mod(top as nat, 0x1_0000_0000);
}

/// A value that fits its bits is multiplied by a shift that keeps them in the word.
proof fn lemma_shifted(value: u32, bits: u8, shift: u8)
    requires
        value <= low_bits(bits),
        shift < 32,
        shift + bits <= 32,
    ensures
        value << (shift as u32) == value * pow2(shift as nat),
{
    lemma_low_bits(bits);
    lemma_pow2_pos(shift as nat);
    lemma_pow2_adds(bits as nat, shift as nat);
    lemma_low_bits((shift + bits) as u8);
    let p = pow2(bits as nat);
    let q = pow2(shift as nat);
    assert(value * q <= 0xFFFF_FFFF) by (nonlinear_arith)
        requires
            value <= p - 1,
            p * q <= 0x1_0000_0000,
            q >= 1,
    ;
    lemma_u32_shl_is_mul(value, shift as u32);
}

/// A destroy takes the card placed at its slot, and there must be one.
pub proof fn law_destroy_takes_the_placed_card<B, S: CardStore>(
    bundle: Bundle<B>,
    store: &S,
    frame: Frame,
    tile: Option<u32>,
    slot: String,
    now_ms: u64,
)
    ensures
        effect_of(bundle, store, frame, tile, VmEffect::Destroy { slot }, now_ms) == match frame.card(
            slot@,
        ) {
            Some(card_id) => Ok(EffectModel::Destroy { card_id }),
            None => Err(RecipeError::DestroyUnbound { slot: slot@ }),
        },
{
}

/// A creation must lead into an inventory; the card it leads to owns what is created.
pub proof fn law_creation_goes_where_its_target_leads<B, S: CardStore>(
    bundle: Bundle<B>,
    store: &S,
    frame: Frame,
    tile: Option<u32>,
    def: String,
    path: String,
    now_ms: u64,
)
    ensures
        ({
            let r = effect_of(
                bundle,
                store,
                frame,
                tile,
                VmEffect::Create { def, target: path },
                now_ms,
            );
            match target(frame, store, path@, now_ms) {
                Err(e) => r == Err::<EffectModel, _>(e),
                Ok((at, word)) => if word == Some("inventory"@) {
                    r matches Ok(EffectModel::Create { def_key, surface, macro_zone, owner_id })
                        && owner_id == at && surface == 1 && macro_zone == at * 0x1_0000_0000
                        + 0x100_0000 && def_key == after_colons(def@)
                } else {
                    r == Err::<EffectModel, _>(RecipeError::CreateOutsideInventory { target: path@ })
                },
            }
        }),
{
}

/// A stock change of a placed card writes the card's word; it needs the card's row, the name
/// of its definition, and a slot for the aspect, in that order.
pub proof fn law_stock_change_of_a_card<B, S: CardStore>(
    bundle: Bundle<B>,
    store: &S,
    frame: Frame,
    tile: Option<u32>,
    slot: String,
    aspect: String,
    delta: i64,
    abs: bool,
    now_ms: u64,
    card_id: u32,
)
    requires
        frame.card(slot@) == Some(card_id),
    ensures
        ({
            let r = effect_of(
                bundle,
                store,
                frame,
                tile,
                VmEffect::Stock { slot, aspect, delta, abs },
                now_ms,
            );
            match store.card(card_id, now_ms) {
                None => r == Err::<EffectModel, _>(RecipeError::StockCardMissing { card_id }),
                Some(row) => match bundle.packed_name(row.packed_definition) {
                    None => r == Err::<EffectModel, _>(RecipeError::StockCardUndefined { card_id }),
                    Some(name) => match declared_slot_bits(bundle, name, aspect@) {
                        None => r == Err::<EffectModel, _>(
                            RecipeError::NoCardSlot { name, aspect: aspect@ },
                        ),
                        Some((shift, width)) => r == Ok::<_, RecipeError>(
                            EffectModel::SetCardStock {
                                card_id,
                                stock: stock_after(row.stock, shift, width, delta, abs),
                            },
                        ),
                    },
                },
            }
        }),
{
}

/// A stock change of a slot with no card is one of the synthetic tile: it assigns the value,
/// or adds or takes off the difference, which stops at 255, to the slot of the tile's
/// definition.
pub proof fn law_stock_change_of_the_tile<B, S: CardStore>(
    bundle: Bundle<B>,
    store: &S,
    frame: Frame,
    tile: Option<u32>,
    slot: String,
    aspect: String,
    delta: i64,
    abs: bool,
    now_ms: u64,
)
    requires
        frame.card(slot@) is None,
    ensures
        ({
            let r = effect_of(
                bundle,
                store,
                frame,
                tile,
                VmEffect::Stock { slot, aspect, delta, abs },
                now_ms,
            );
            match tile {
                None => r == Err::<EffectModel, _>(RecipeError::NoTile),
                Some(def_id) => match bundle.card_with_id(def_id) {
                    None => r == Err::<EffectModel, _>(RecipeError::NamelessTile),
                    Some(def) => match declared_slot(bundle, def.name@, aspect@) {
                        None => r == Err::<EffectModel, _>(
                            RecipeError::NoTileSlot { name: def.name@, aspect: aspect@ },
                        ),
                        Some(i) => r matches Ok(
                            EffectModel::ModifyTileStock { slot: at, op, delta: size },
                        ) && at == i % 256 && (abs ==> op is Assign && size == held_within(
                            delta as int,
                            255,
                        )) && (!abs && delta < 0 ==> op is Sub && size == held_within(-delta, 255))
                            && (!abs && delta >= 0 ==> op is Add && size == held_within(
                            delta as int,
                            255,
                        )),
                    },
                },
            }
        }),
{
}

/// An unlock gives the card its target leads to the blueprint of the key, or else the one that
/// spawns a card of that name.
pub proof fn law_unlock_goes_by_key_then_by_card<B, S: CardStore>(
    bundle: Bundle<B>,
    store: &S,
    frame: Frame,
    tile: Option<u32>,
    def: String,
    path: String,
    now_ms: u64,
)
    ensures
        ({
            let r = effect_of(
                bundle,
                store,
                frame,
                tile,
                VmEffect::Blueprint { def, target: path },
                now_ms,
            );
            let key = after_colons(def@);
            match target(frame, store, path@, now_ms) {
                Err(e) => r == Err::<EffectModel, _>(e),
                Ok((at, word)) => {
                    let by_key = bundle.blueprint_keyed(key);
                    let by_card = bundle.blueprint_spawning(key);
                    &&& by_key matches Some(id) ==> r == Ok::<_, RecipeError>(
                        EffectModel::UnlockBlueprint { blueprint_id: id, target_card_id: at },
                    )
                    &&& by_key is None ==> (by_card matches Some(id) ==> r == Ok::<_, RecipeError>(
                        EffectModel::UnlockBlueprint { blueprint_id: id, target_card_id: at },
                    ))
                    &&& by_key is None && by_card is None ==> r == Err::<EffectModel, _>(
                        RecipeError::UnknownBlueprint { key },
                    )
                },
            }
        }),
{
}

/// A plan that fails fails for its first effect that does.
pub proof fn law_first_failing_effect_is_reported<B, S: CardStore>(
    bundle: Bundle<B>,
    store: &S,
    frame: Frame,
    holds: Seq<(String, Hold)>,
    planned: PlanOutcome,
    tile: Option<u32>,
    now_ms: u64,
    i: int,
)
    requires
        0 <= i < planned.effects@.len(),
        forall|j: int|
            0 <= j < i ==> effect_of(
                bundle,
                store,
                frame,
                tile,
                #[trigger] planned.effects@[j],
                now_ms,
            ) is Ok,
    ensures
        effect_of(bundle, store, frame, tile, planned.effects@[i], now_ms) matches Err(e)
            ==> translated(bundle, store, frame, holds, planned, tile, now_ms) == Err::<
            PlanModel,
            _,
        >(e),
{
    lemma_first_failing(bundle, store, frame, tile, planned.effects@, now_ms, i);
}

proof fn lemma_first_failing<B, S: CardStore>(
    bundle: Bundle<B>,
    store: &S,
    frame: Frame,
    tile: Option<u32>,
    effects: Seq<VmEffect>,
    now_ms: u64,
    i: int,
)
    requires
        0 <= i <= effects.len(),
        forall|j: int|
            0 <= j < i ==> effect_of(
                bundle,
                store,
                frame,
                tile,
                #[trigger] effects[j],
                now_ms,
            ) is Ok,
    ensures
        i == effects.len() ==> effects_of(bundle, store, frame, tile, effects, now_ms) is Ok,
        i < effects.len() ==> (effect_of(
            bundle,
            store,
            frame,
            tile,
            effects[i],
            now_ms,
        ) matches Err(e) ==> effects_of(bundle, store, frame, tile, effects, now_ms) == Err::<
            Seq<EffectModel>,
            _,
        >(e)),
    decreases effects.len(),
{
    if effects.len() > 0 {
        let front = effects.drop_last();
        let n = effects.len() - 1;
        assert(effects[n] == effects.last());
        assert forall|j: int| 0 <= j < n implies #[trigger] front[j] == effects[j] by {}
        lemma_first_failing(
            bundle,
            store,
            frame,
            tile,
            front,
            now_ms,
            if i < n {
                i
            } else {
                n
            },
        );
    }
}

/// A plan that holds carries the duration through, never negative and in 32 bits.
pub proof fn law_duration_carries_through<B, S: CardStore>(
    bundle: Bundle<B>,
    store: &S,
    frame: Frame,
    holds: Seq<(String, Hold)>,
    planned: PlanOutcome,
    tile: Option<u32>,
    now_ms: u64,
)
    ensures
        translated(bundle, store, frame, holds, planned, tile, now_ms) matches Ok(plan) ==> {
            &&& planned.duration < 0 ==> plan.duration == 0
            &&& 0 <= planned.duration ==> plan.duration == planned.duration as int % 0x1_0000_0000
            &&& plan.holds == card_holds(frame, holds)
            &&& plan.tile_holds == unplaced_holds(frame, holds)
            &&& plan.styles == card_styles(frame, planned.styles@)
        },
{
}

/// The style of a bound card is 1 for `ltr`, 2 for `rtl` and 0 for any other, by the last
/// style given to its slot.
pub proof fn law_styles_by_name(
    frame: Frame,
    styles: Seq<(String, String)>,
    i: int,
    card_id: u32,
)
    requires
        0 <= i < styles.len(),
        frame.card(styles[i].0@) == Some(card_id),
        forall|j: int|
            i < j < styles.len() ==> frame.card((#[trigger] styles[j]).0@) != Some(card_id),
    ensures
        card_styles(frame, styles).contains_key(card_id),
        styles[i].1@ == "ltr"@ ==> card_styles(frame, styles)[card_id] == 1,
        styles[i].1@ == "rtl"@ ==> card_styles(frame, styles)[card_id] == 2,
        styles[i].1@ != "ltr"@ && styles[i].1@ != "rtl"@ ==> card_styles(frame, styles)[card_id]
            == 0,
{
    reveal_strlit("ltr");
    reveal_strlit("rtl");
    assert("ltr"@[0] != "rtl"@[0]);
    law_last_style_wins(frame, styles, i, card_id);
}

/// A card has a style only if a style is given to its slot.
pub proof fn law_no_style_without_a_slot(
    frame: Frame,
    styles: Seq<(String, String)>,
    card_id: u32,
)
    requires
        forall|j: int|
            0 <= j < styles.len() ==> frame.card((#[trigger] styles[j]).0@) != Some(card_id),
    ensures
        !card_styles(frame, styles).contains_key(card_id),
    decreases styles.len(),
{
    if styles.len() > 0 {
        let front = styles.drop_last();
        assert forall|j: int| 0 <= j < front.len() implies frame.card((#[trigger] front[j]).0@)
            != Some(card_id) by {
            assert(front[j] == styles[j]);
        }
        law_no_style_without_a_slot(frame, front, card_id);
        assert(styles[styles.len() - 1] == styles.last());
    }
}

/// The holds that verbs make, spelled out: exclusive for a use or a claim, shared for a share
/// or a borrow, in position for a claim or a share.
pub open spec fn spelled_holds(
    frame: Frame,
    holds: Seq<(String, Hold)>,
    card: Option<u32>,
    kinds: HoldKinds,
) -> bool {
    &&& kinds.slot_hold <==> exists|i: int| #[trigger]
        binds(frame, holds, i, card) && (holds[i].1 is Use || holds[i].1 is Claim)
    &&& kinds.slot_share <==> exists|i: int| #[trigger]
        binds(frame, holds, i, card) && (holds[i].1 is Share || holds[i].1 is Borrow)
    &&& kinds.position_hold <==> exists|i: int| #[trigger]
        binds(frame, holds, i, card) && (holds[i].1 is Claim || holds[i].1 is Share)
}

/// A plan holds just the cards whose slots a recipe binds, and the tile if it binds a slot with
/// no card, as the verbs on those slots say.
pub proof fn law_holds_by_verb(frame: Frame, holds: Seq<(String, Hold)>, card_id: u32)
    ensures
        card_holds(frame, holds).contains_key(card_id) <==> exists|i: int| #[trigger]
            binds(frame, holds, i, Some(card_id)),
        card_holds(frame, holds).contains_key(card_id) ==> spelled_holds(
            frame,
            holds,
            Some(card_id),
            card_holds(frame, holds)[card_id],
        ),
        unplaced_holds(frame, holds) is Some <==> exists|i: int| #[trigger]
            binds(frame, holds, i, None),
        unplaced_holds(frame, holds) matches Some(kinds) ==> spelled_holds(
            frame,
            holds,
            None,
            kinds,
        ),
{
    law_card_holds_are_joint(frame, holds, card_id);
    law_tile_holds_are_joint(frame, holds);
}

/// A bound card is read by its row: the id of the definition its packed name leads to, and its
/// stock as that definition's slots decode it.
pub proof fn law_bound_card_by_its_row<B, S: CardStore>(
    bundle: Bundle<B>,
    store: &S,
    card_id: u32,
    now_ms: u64,
)
    ensures
        match store.card(card_id, now_ms) {
            None => card_bound(bundle, store, card_id, now_ms) is None,
            Some(row) => match bundle.packed_name(row.packed_definition) {
                None => card_bound(bundle, store, card_id, now_ms) is None,
                Some(name) => match bundle.card_named(name) {
                    None => card_bound(bundle, store, card_id, now_ms) is None,
                    Some(def) => card_bound(bundle, store, card_id, now_ms) matches Some(card)
                        && card.def_id == def.def_id && card.stock
                        == decoded_stock(bundle, name, row.stock),
                },
            },
        },
{
}

/// A synthetic tile is read by its packed name: the id of the definition, and the two stocks in
/// their order.
pub proof fn law_tile_by_its_packed_name<B>(bundle: Bundle<B>, packed: u16, s0: u8, s1: u8)
    ensures
        match bundle.packed_name(packed) {
            None => tile_card(bundle, packed, s0, s1) == Err::<CardModel, _>(
                RecipeError::UnknownTilePacked { packed },
            ),
            Some(name) => match bundle.card_named(name) {
                None => tile_card(bundle, packed, s0, s1) == Err::<CardModel, _>(
                    RecipeError::UnknownTile { name },
                ),
                Some(def) => tile_card(bundle, packed, s0, s1) matches Ok(card) && card.def_id
                    == def.def_id && card.stock.len() == 2 && card.stock[0] == s0 && card.stock[1]
                    == s1,
            },
        },
{
}

/// A recipe starts if it is loaded and its synthetic tile, if there is one, can be read; an unknown
/// recipe is reported first.
pub proof fn law_what_a_recipe_starts_with<B>(
    bundle: Bundle<B>,
    name: Seq<char>,
    synthetic: Option<(u16, (u8, u8))>,
)
    ensures
        match bundle.recipe_named(name) {
            None => begun(bundle, name, synthetic) == Err::<(Recipe<B>, Option<CardModel>), _>(
                RecipeError::UnknownRecipe { name },
            ),
            Some(recipe) => match synthetic {
                None => begun(bundle, name, synthetic) == Ok::<_, RecipeError>(
                    (recipe, None::<CardModel>),
                ),
                Some((packed, (s0, s1))) => match tile_card(bundle, packed, s0, s1) {
                    Ok(card) => begun(bundle, name, synthetic) == Ok::<_, RecipeError>(
                        (recipe, Some(card)),
                    ),
                    Err(e) => begun(bundle, name, synthetic) == Err::<
                        (Recipe<B>, Option<CardModel>),
                        _,
                    >(e),
                },
            },
        },
{
}

/// What an evaluated recipe gives: the machine's own errors as they are, a refusal where its input
/// does not match, else the translation of what it planned; and the machine was given the recipe's
/// own input and output bodies.
pub proof fn law_what_a_recipe_gives<
    B,
    S: CardStore,
    V,
    F: FnOnce(&Bundle<B>, &Recipe<B>, u32, &[Vec<u32>], &Option<Card>, &Lookup<B, S>) -> (Frame, V),
    M: FnOnce(&[B], V, &Bundle<B>) -> (V, Result<MatchOutcome, String>),
    P: FnOnce(&[B], V, &Bundle<B>) -> Result<PlanOutcome, String>,
>(
    lookup: Lookup<B, S>,
    recipe: Recipe<B>,
    root: u32,
    bindings: &[Vec<u32>],
    tile: Option<Card>,
    build_frame: F,
    built: (Frame, V),
    input: &[B],
    match_input: M,
    matched: (V, Result<MatchOutcome, String>),
    output: &[B],
    plan_output: P,
    planned: Result<PlanOutcome, String>,
    r: Result<ActionPlan, String>,
)
    requires
        evaluated(
            lookup,
            recipe,
            root,
            bindings,
            tile,
            build_frame,
            built,
            input,
            match_input,
            matched,
            output,
            plan_output,
            planned,
            r,
        ),
    ensures
        input@ == recipe.hook_body("input"@),
        output@ == recipe.hook_body("output"@),
        call_ensures(build_frame, (lookup.bundle, &recipe, root, bindings, &tile, &lookup), built),
        call_ensures(match_input, (input, built.1, lookup.bundle), matched),
        matched.1 matches Err(text) ==> r == Err::<ActionPlan, String>(text),
        matched.1 matches Ok(outcome) ==> !outcome.matched ==> (r matches Err(text) && text@
            == "recipe "@ + debug_text(recipe.name@)
            + " input not satisfied by bindings"@),
        matched.1 matches Ok(outcome) ==> outcome.matched ==> call_ensures(
            plan_output,
            (output, matched.0, lookup.bundle),
            planned,
        ),
        matched.1 matches Ok(outcome) ==> outcome.matched ==> (planned matches Err(text) ==> r == Err::<
            ActionPlan,
            String,
        >(text)),
        matched.1 matches Ok(outcome) ==> outcome.matched ==> (planned matches Ok(report)
            ==> match translated(
            *lookup.bundle,
            lookup.store,
            built.0,
            outcome.holds@,
            report,
            match tile {
                Some(card) => Some(card.def_id),
                None => None,
            },
            lookup.now_ms,
        ) {
            Ok(plan) => r matches Ok(got) && got@ == plan,
            Err(e) => r matches Err(text) && text@ == e.text(),
        }),
{
}

/// A recipe that cannot start is refused by its name or by its tile's.
pub proof fn law_words_about_a_recipe(name: Seq<char>, packed: u16)
    ensures
        (RecipeError::UnknownRecipe { name }).text() == "DSL recipe "@ + debug_text(name)
            + " not found"@,
        (RecipeError::UnknownTilePacked { packed }).text() == "tile packed "@ + hex_text(
            packed as nat,
        ) + " not in DSL bundle"@,
        (RecipeError::UnknownTile { name }).text() == "tile "@ + debug_text(name)
            + " not in DSL bundle"@,
        (RecipeError::InputNotSatisfied { name }).text() == "recipe "@ + debug_text(name)
            + " input not satisfied by bindings"@,
{
}

/// An effect that cannot be had is refused by the slot, target, card or key it is about.
pub proof fn law_words_about_an_effect(name: Seq<char>, aspect: Seq<char>, card_id: u32)
    ensures
        (RecipeError::DestroyUnbound { slot: name }).text() == "destroy: "@ + debug_text(name)
            + " is not a bound card"@,
        (RecipeError::CreateOutsideInventory { target: name }).text()
            == "create target must end in .inventory; got "@ + debug_text(name),
        (RecipeError::StockCardMissing { card_id }).text() == "stock op: bound card "@
            + decimal_text(card_id as nat) + " not found"@,
        (RecipeError::StockCardUndefined { card_id }).text() == "stock op: card "@ + decimal_text(
            card_id as nat,
        ) + " packed not in bundle"@,
        (RecipeError::NoCardSlot { name, aspect }).text() == "card "@ + debug_text(name)
            + " declares no stock slot for aspect "@ + debug_text(aspect),
        RecipeError::NoTile.text() == "tile stock op but no synthetic tile"@,
        RecipeError::NamelessTile.text() == "tile def has no name"@,
        (RecipeError::NoTileSlot { name, aspect }).text() == "tile "@ + debug_text(name)
            + " declares no stock slot for aspect "@ + debug_text(aspect),
        (RecipeError::UnknownBlueprint { key: name }).text()
            == "recipe unlocks unknown blueprint "@ + debug_text(name) + " (no <blueprint> def)"@,
        (RecipeError::UnresolvedTarget { path: name }).text() == "unresolved target path "@
            + debug_text(name),
        (RecipeError::NoOwner { card_id }).text() == "owner step: card "@ + decimal_text(
            card_id as nat,
        ) + " has no owner"@,
        (RecipeError::ParentMissing { card_id }).text() == "parent step: card "@ + decimal_text(
            card_id as nat,
        ) + " not in store"@,
        (RecipeError::NotStacked { card_id }).text() == "parent step: card "@ + decimal_text(
            card_id as nat,
        ) + " is not stacked"@,
        (RecipeError::UnsupportedStep { step: name, path: aspect }).text()
            == "unsupported target step "@ + debug_text(name) + " in "@ + debug_text(aspect),
{
    reveal_strlit("");
    assert("create target must end in .inventory; got "@ + debug_text(name) + ""@
        =~= "create target must end in .inventory; got "@ + debug_text(name));
    assert("unresolved target path "@ + debug_text(name) + ""@ =~= "unresolved target path "@
        + debug_text(name));
}

/// A plan says what its fields say, its effects in their order, each with its own text.
pub proof fn law_what_a_plan_says(
    plan: ActionPlan,
    i: int,
    text: String,
    a: u32,
    b: u32,
    c: u64,
    s: u8,
)
    ensures
        plan@.duration == plan.duration,
        plan@.tile_holds == plan.tile_holds,
        plan@.styles == plan.styles@,
        plan@.holds == plan.holds@,
        plan@.effects.len() == plan.effects@.len(),
        0 <= i < plan.effects@.len() ==> plan@.effects[i] == plan.effects@[i]@,
        (Effect::Destroy { card_id: a })@ == (EffectModel::Destroy { card_id: a }),
        (Effect::Create { def_key: text, surface: s, macro_zone: c, owner_id: a })@ == (
        EffectModel::Create { def_key: text@, surface: s, macro_zone: c, owner_id: a }),
        (Effect::SetCardStock { card_id: a, stock: b })@ == (EffectModel::SetCardStock {
            card_id: a,
            stock: b,
        }),
        (Effect::UnlockBlueprint { blueprint_id: a, target_card_id: b })@ == (
        EffectModel::UnlockBlueprint { blueprint_id: a, target_card_id: b }),
{
}

/// A change of a tile's stock says its slot, its operation and its size.
pub proof fn law_what_a_tile_change_says(slot: u8, op: StockOp, delta: u8)
    ensures
        (Effect::ModifyTileStock { slot, op, delta })@ == (EffectModel::ModifyTileStock {
            slot,
            op,
            delta,
        }),
{
}

/// A target that is found is answered by its card and its last container word, one that is not by
/// the reason in words.
pub proof fn law_answer_for_a_target(
    r: Result<(u32, Option<String>), String>,
    expected: Result<(u32, Option<Seq<char>>), RecipeError>,
)
    ensures
        target_is(r, expected) <==> match expected {
            Ok((at, Some(word))) => r matches Ok((id, Some(text))) && id == at && text@ == word,
            Ok((at, None)) => r == Ok::<(u32, Option<String>), String>((at, None)),
            Err(e) => r matches Err(text) && text@ == e.text(),
        },
{
}

/// A plan that can be had is answered by it, one that cannot by the reason in words.
pub proof fn law_answer_for_a_plan(
    r: Result<ActionPlan, String>,
    expected: Result<PlanModel, RecipeError>,
)
    ensures
        plan_is(r, expected) <==> match expected {
            Ok(plan) => r matches Ok(got) && got@ == plan,
            Err(e) => r matches Err(text) && text@ == e.text(),
        },
{
}

/// A match is answered by its holds, a mismatch by a refusal that names the recipe, and an error of
/// the machine by itself.
pub proof fn law_answer_for_a_match(
    name: Seq<char>,
    matched: Result<MatchOutcome, String>,
    r: Result<Vec<(String, Hold)>, String>,
)
    requires
        accepted(name, matched, r),
    ensures
        matched matches Err(text) ==> r == Err::<Vec<(String, Hold)>, String>(text),
        matched matches Ok(outcome) ==> outcome.matched ==> r == Ok::<
            Vec<(String, Hold)>,
            String,
        >(outcome.holds),
        matched matches Ok(outcome) ==> !outcome.matched ==> (r matches Err(text) && text@
            == "recipe "@ + debug_text(name) + " input not satisfied by bindings"@),
{
}

} // verus!
