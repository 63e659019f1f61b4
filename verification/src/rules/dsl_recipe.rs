//! Recipe evaluation: what the recipe machine reports on a proposal's recipe,
//! turned into the [`ActionPlan`] a consumer applies.
//!
//! Generic over [`CardStore`]: cards are read through the trait, so every holder of
//! cards shares this code.
//!   - **rows to `Card`**: a stored row's `packed_definition` is decoded to a card
//!     name via the [`Bundle`] and re-id'd to the bound `Card` a recipe reads.
//!   - **frame**: the bound cards, placed at their slot paths.
//!   - **match + plan**: the machine matches `@input` and runs `@output`.
//!   - **report to `ActionPlan`**: holds, effects, styles and duration mapped to
//!     the shape consumers apply. The owner walk for `create` / unlock targets
//!     resolves against the store here.
//!
//! State validation (not dead / holds / dedup) lives in
//! [`crate::state::recipe_state::validate_bindings`]; this module is recipe
//! semantics only.

use std::collections::BTreeMap;
use vstd::prelude::*;
use crate::codec::card_model::micro_is_card;
use crate::codec::packed::{pack_macro_zone_full, INVENTORY_LAYER};
use crate::codec::plan::{ActionPlan, Effect, HoldKinds, StockOp};
use crate::dsl::bridge::{slot_field, stock_slot_bits, stock_slot_for_aspect, stock_to_vec, Card};
use crate::dsl::loader::{Bundle, Recipe};
use crate::dsl::recipe::Frame;
use crate::dsl::vm::{Hold, MatchOutcome, PlanOutcome, VmEffect};
use crate::state::recipe_state::CardStore;
use crate::text::{debug, decimal, hex, split_steps, str_eq, tail_after_colons};

verus! {

use crate::codec::card_model::stack_value;
use crate::codec::flags::{low_bits, window};
use crate::codec::packed::macro_zone_full;
use crate::codec::plan::{EffectModel, PlanModel};
use crate::dsl::bridge::{
    declared_slot,
    declared_slot_bits,
    decoded_stock,
    slot_bits,
    slot_value,
    CardModel,
};
use crate::text::{after_colons, debug_text, decimal_text, dotted_steps, hex_text};

broadcast use vstd::laws_cmp::group_laws_cmp;

/// Why a recipe gives no plan.
pub enum RecipeError {
    UnknownRecipe { name: Seq<char> },
    UnknownTilePacked { packed: u16 },
    UnknownTile { name: Seq<char> },
    InputNotSatisfied { name: Seq<char> },
    DestroyUnbound { slot: Seq<char> },
    CreateOutsideInventory { target: Seq<char> },
    StockCardMissing { card_id: u32 },
    StockCardUndefined { card_id: u32 },
    NoCardSlot { name: Seq<char>, aspect: Seq<char> },
    NoTile,
    NamelessTile,
    NoTileSlot { name: Seq<char>, aspect: Seq<char> },
    UnknownBlueprint { key: Seq<char> },
    UnresolvedTarget { path: Seq<char> },
    NoOwner { card_id: u32 },
    ParentMissing { card_id: u32 },
    NotStacked { card_id: u32 },
    UnsupportedStep { step: Seq<char>, path: Seq<char> },
}

impl RecipeError {
    /// The reason in words.
    pub open spec fn text(self) -> Seq<char> {
        match self {
            RecipeError::UnknownRecipe { name } => "DSL recipe "@ + debug_text(name)
                + " not found"@,
            RecipeError::UnknownTilePacked { packed } => "tile packed "@ + hex_text(packed as nat)
                + " not in DSL bundle"@,
            RecipeError::UnknownTile { name } => "tile "@ + debug_text(name)
                + " not in DSL bundle"@,
            RecipeError::InputNotSatisfied { name } => "recipe "@ + debug_text(name)
                + " input not satisfied by bindings"@,
            RecipeError::DestroyUnbound { slot } => "destroy: "@ + debug_text(slot)
                + " is not a bound card"@,
            RecipeError::CreateOutsideInventory { target } =>
                "create target must end in .inventory; got "@ + debug_text(target) + ""@,
            RecipeError::StockCardMissing { card_id } => "stock op: bound card "@ + decimal_text(
                card_id as nat,
            ) + " not found"@,
            RecipeError::StockCardUndefined { card_id } => "stock op: card "@ + decimal_text(
                card_id as nat,
            ) + " packed not in bundle"@,
            RecipeError::NoCardSlot { name, aspect } => "card "@ + debug_text(name)
                + " declares no stock slot for aspect "@ + debug_text(aspect),
            RecipeError::NoTile => "tile stock op but no synthetic tile"@,
            RecipeError::NamelessTile => "tile def has no name"@,
            RecipeError::NoTileSlot { name, aspect } => "tile "@ + debug_text(name)
                + " declares no stock slot for aspect "@ + debug_text(aspect),
            RecipeError::UnknownBlueprint { key } => "recipe unlocks unknown blueprint "@
                + debug_text(key) + " (no <blueprint> def)"@,
            RecipeError::UnresolvedTarget { path } => "unresolved target path "@ + debug_text(path)
                + ""@,
            RecipeError::NoOwner { card_id } => "owner step: card "@ + decimal_text(card_id as nat)
                + " has no owner"@,
            RecipeError::ParentMissing { card_id } => "parent step: card "@ + decimal_text(
                card_id as nat,
            ) + " not in store"@,
            RecipeError::NotStacked { card_id } => "parent step: card "@ + decimal_text(
                card_id as nat,
            ) + " is not stacked"@,
            RecipeError::UnsupportedStep { step, path } => "unsupported target step "@
                + debug_text(step) + " in "@ + debug_text(path),
        }
    }
}

/// `head`, a string in quotes, `tail`.
fn quoted(head: &str, s: &str, tail: &str) -> (r: String)
    ensures
        r@ == head@ + debug_text(s@) + tail@,
{
    let mut r = head.to_owned();
    r.append(debug(s).as_str());
    r.append(tail);
    r
}

/// `head`, a string in quotes, `middle`, another string in quotes.
fn quoted_pair(head: &str, a: &str, middle: &str, b: &str) -> (r: String)
    ensures
        r@ == head@ + debug_text(a@) + middle@ + debug_text(b@),
{
    let mut r = quoted(head, a, middle);
    r.append(debug(b).as_str());
    r
}

/// `head`, a card id, `tail`.
fn numbered(head: &str, card_id: u32, tail: &str) -> (r: String)
    ensures
        r@ == head@ + decimal_text(card_id as nat) + tail@,
{
    let mut r = head.to_owned();
    r.append(decimal(card_id as u64).as_str());
    r.append(tail);
    r
}

/// The holds a slot verb stands for: `Use` and `Claim` take the card exclusively,
/// `Share` and `Borrow` share it; `Claim` and `Share` also pin it in place.
pub open spec fn hold_kinds(hold: Hold) -> HoldKinds {
    HoldKinds {
        slot_hold: hold is Use || hold is Claim,
        slot_share: hold is Share || hold is Borrow,
        position_hold: hold is Claim || hold is Share,
    }
}

fn kinds(hold: &Hold) -> (r: HoldKinds)
    ensures
        r == hold_kinds(*hold),
{
    match hold {
        Hold::Use => HoldKinds { slot_hold: true, slot_share: false, position_hold: false },
        Hold::Claim => HoldKinds { slot_hold: true, slot_share: false, position_hold: true },
        Hold::Share => HoldKinds { slot_hold: false, slot_share: true, position_hold: true },
        Hold::Borrow => HoldKinds { slot_hold: false, slot_share: true, position_hold: false },
    }
}

/// No holds: the merge base.
pub open spec fn no_holds() -> HoldKinds {
    HoldKinds { slot_hold: false, position_hold: false, slot_share: false }
}

/// The holds of either.
pub open spec fn merged(a: HoldKinds, b: HoldKinds) -> HoldKinds {
    HoldKinds {
        slot_hold: a.slot_hold || b.slot_hold,
        slot_share: a.slot_share || b.slot_share,
        position_hold: a.position_hold || b.position_hold,
    }
}

fn merge(into: &mut HoldKinds, k: &HoldKinds)
    ensures
        *final(into) == merged(*old(into), *k),
{
    into.slot_hold = into.slot_hold || k.slot_hold;
    into.slot_share = into.slot_share || k.slot_share;
    into.position_hold = into.position_hold || k.position_hold;
}

/// The progress-style code of a style name: `ltr` 1, `rtl` 2, any other 0.
pub open spec fn style_number(style: Seq<char>) -> u8 {
    if style == "ltr"@ {
        1
    } else if style == "rtl"@ {
        2
    } else {
        0
    }
}

fn style_code(style: &str) -> (r: u8)
    ensures
        r == style_number(style@),
{
    if str_eq(style, "ltr") {
        1
    } else if str_eq(style, "rtl") {
        2
    } else {
        0
    }
}

/// `card::corpus_dim` / `blueprint::nd_furnace`: the bare key (`corpus_dim`).
fn def_key(def: &str) -> (r: String)
    ensures
        r@ == after_colons(def@),
{
    tail_after_colons(def).to_owned()
}

/// One step of a target path past the placed cards: where it leads from card `at`,
/// and the container word met so far.
pub open spec fn stepped<S: CardStore>(
    store: &S,
    at: u32,
    container: Option<Seq<char>>,
    step: Seq<char>,
    path: Seq<char>,
    now_ms: u64,
) -> Result<(u32, Option<Seq<char>>), RecipeError> {
    if step == "owner"@ {
        match store.card(at, now_ms) {
            Some(c) => if c.owner_id != 0 {
                Ok((c.owner_id, container))
            } else {
                Err(RecipeError::NoOwner { card_id: at })
            },
            None => Err(RecipeError::NoOwner { card_id: at }),
        }
    } else if step == "parent"@ {
        match store.card(at, now_ms) {
            Some(c) => if stack_value(c.flags) != 0 {
                Ok((c.micro_location, container))
            } else {
                Err(RecipeError::NotStacked { card_id: at })
            },
            None => Err(RecipeError::ParentMissing { card_id: at }),
        }
    } else if step == "inventory"@ || step == "blueprint"@ {
        Ok((at, Some(step)))
    } else {
        Err(RecipeError::UnsupportedStep { step, path })
    }
}

/// Where the steps of a target path lead from card `from`.
pub open spec fn walked<S: CardStore>(
    store: &S,
    from: u32,
    steps: Seq<Seq<char>>,
    path: Seq<char>,
    now_ms: u64,
) -> Result<(u32, Option<Seq<char>>), RecipeError>
    decreases steps.len(),
{
    if steps.len() == 0 {
        Ok((from, None))
    } else {
        match walked(store, from, steps.drop_last(), path, now_ms) {
            Ok(at) => stepped(store, at.0, at.1, steps.last(), path, now_ms),
            Err(e) => Err(e),
        }
    }
}

/// The card a target path leads to and the last container word on the way: the
/// card placed at the path, else the walk from the longest placed path.
pub open spec fn target<S: CardStore>(
    frame: Frame,
    store: &S,
    path: Seq<char>,
    now_ms: u64,
) -> Result<(u32, Option<Seq<char>>), RecipeError> {
    match frame.card(path) {
        Some(id) => Ok((id, None)),
        None => match frame.prefix(path) {
            Some(start) => walked(store, start.1, dotted_steps(start.2), path, now_ms),
            None => Err(RecipeError::UnresolvedTarget { path }),
        },
    }
}

/// Whether a card and a container word are those expected, or the error in words.
pub open spec fn target_is(
    r: Result<(u32, Option<String>), String>,
    expected: Result<(u32, Option<Seq<char>>), RecipeError>,
) -> bool {
    match (r, expected) {
        (Ok(found), Ok(meant)) => found.0 == meant.0 && match (found.1, meant.1) {
            (Some(word), Some(text)) => word@ == text,
            (None, None) => true,
            _ => false,
        },
        (Err(text), Err(e)) => text@ == e.text(),
        _ => false,
    }
}

/// Resolve a slot-path target to a concrete card, walking `.owner` / `.parent` past
/// the longest placed-card prefix via the store. Returns the resolved card and any
/// trailing container word (`inventory` / `blueprint`).
pub fn resolve_target<S: CardStore>(frame: &Frame, store: &S, path: &str, now_ms: u64) -> (r:
    Result<(u32, Option<String>), String>)
    ensures
        target_is(r, target(*frame, store, path@, now_ms)),
{
    if let Some(id) = frame.card_at(path) {
        return Ok((id, None));
    }
    let (start, rest) = match frame.longest_prefix(path) {
        Some((_, card_id, rest)) => (card_id, rest),
        None => {
            return Err(quoted("unresolved target path ", path, ""));
        },
    };
    let steps = split_steps(rest);
    let ghost texts = dotted_steps(rest@);
    let mut cid: u32 = start;
    let mut container: Option<String> = None;
    let mut i: usize = 0;
    proof {
        assert(texts.take(0) =~= Seq::<Seq<char>>::empty());
    }
    while i < steps.len()
        invariant
            i <= steps@.len(),
            steps@.map_values(|part: String| part@) == texts,
            target(*frame, store, path@, now_ms) == walked(store, start, texts, path@, now_ms),
            target_is(
                Ok((cid, container)),
                walked(store, start, texts.take(i as int), path@, now_ms),
            ),
        decreases steps.len() - i,
    {
        let step = steps[i].as_str();
        let ghost before = walked(store, start, texts.take(i as int), path@, now_ms);
        let ghost after = walked(store, start, texts.take(i + 1), path@, now_ms);
        proof {
            assert(texts.len() == steps@.len());
            assert(texts[i as int] == steps@[i as int]@);
            assert(texts.take(i + 1).drop_last() =~= texts.take(i as int));
            assert(texts.take(i + 1).last() == step@);
            assert(after == stepped(store, cid, before->Ok_0.1, step@, path@, now_ms));
            if after is Err {
                lemma_walk_stops(store, start, texts, path@, now_ms, i + 1);
            }
        }
        if str_eq(step, "owner") {
            let owner = match store.card_at(cid, now_ms) {
                Some(c) => c.owner_id,
                None => 0,
            };
            if owner == 0 {
                return Err(numbered("owner step: card ", cid, " has no owner"));
            }
            cid = owner;
        } else if str_eq(step, "parent") {
            let c = match store.card_at(cid, now_ms) {
                Some(c) => c,
                None => {
                    return Err(numbered("parent step: card ", cid, " not in store"));
                },
            };
            if !micro_is_card(c.flags) {
                return Err(numbered("parent step: card ", cid, " is not stacked"));
            }
            cid = c.micro_location;
        } else if str_eq(step, "inventory") || str_eq(step, "blueprint") {
            container = Some(step.to_owned());
        } else {
            return Err(quoted_pair("unsupported target step ", step, " in ", path));
        }
        i += 1;
    }
    assert(texts.take(steps@.len() as int) =~= texts);
    Ok((cid, container))
}

/// A walk that fails on its way fails as a whole.
proof fn lemma_walk_stops<S: CardStore>(
    store: &S,
    from: u32,
    steps: Seq<Seq<char>>,
    path: Seq<char>,
    now_ms: u64,
    n: int,
)
    requires
        0 <= n <= steps.len(),
        walked(store, from, steps.take(n), path, now_ms) is Err,
    ensures
        walked(store, from, steps, path, now_ms) == walked(
            store,
            from,
            steps.take(n),
            path,
            now_ms,
        ),
    decreases steps.len(),
{
    if n < steps.len() {
        assert(steps.drop_last().take(n) =~= steps.take(n));
        lemma_walk_stops(store, from, steps.drop_last(), path, now_ms, n);
    } else {
        assert(steps.take(n) =~= steps);
    }
}

/// A number moved into the range from 0 to `cap`.
pub open spec fn clamped(value: int, cap: int) -> int {
    if value < 0 {
        0
    } else if value > cap {
        cap
    } else {
        value
    }
}

/// The value of a stock slot after a change: `delta` itself if `abs`, else `delta`
/// more than before, kept within what the slot can hold.
pub open spec fn stock_result(stock: u32, shift: u8, width: u8, delta: i64, abs: bool) -> u32 {
    let value = if abs {
        delta as int
    } else {
        slot_value(stock, shift, width) + delta
    };
    clamped(value, low_bits(slot_bits(width)) as int) as u32
}

/// The stock word after a change of one slot: the other bits stay as they are.
pub open spec fn stock_after(stock: u32, shift: u8, width: u8, delta: i64, abs: bool) -> u32 {
    (stock & !window(shift, slot_bits(width))) | (stock_result(stock, shift, width, delta, abs)
        << shift)
}

/// The operation a tile stock slot takes: to `delta` if `abs`, else down or up by
/// its magnitude, which stops at 255.
pub open spec fn tile_op(delta: i64, abs: bool) -> (StockOp, u8) {
    if abs {
        (StockOp::Assign, clamped(delta as int, 255) as u8)
    } else if delta < 0 {
        (StockOp::Sub, clamped(-delta, 255) as u8)
    } else {
        (StockOp::Add, clamped(delta as int, 255) as u8)
    }
}

/// What an effect of a recipe does to the world: `tile` is the definition of the
/// synthetic tile, where the proposal has one. A slot with no card placed at it is
/// the tile.
pub open spec fn effect_of<B, S: CardStore>(
    bundle: Bundle<B>,
    store: &S,
    frame: Frame,
    tile: Option<u32>,
    effect: VmEffect,
    now_ms: u64,
) -> Result<EffectModel, RecipeError> {
    match effect {
        VmEffect::Destroy { slot } => match frame.card(slot@) {
            Some(card_id) => Ok(EffectModel::Destroy { card_id }),
            None => Err(RecipeError::DestroyUnbound { slot: slot@ }),
        },
        VmEffect::Create { def, target: path } => match target(frame, store, path@, now_ms) {
            Ok(found) => if found.1 == Some("inventory"@) {
                Ok(
                    EffectModel::Create {
                        def_key: after_colons(def@),
                        surface: INVENTORY_LAYER,
                        macro_zone: macro_zone_full(found.0, INVENTORY_LAYER, 0, 0),
                        owner_id: found.0,
                    },
                )
            } else {
                Err(RecipeError::CreateOutsideInventory { target: path@ })
            },
            Err(e) => Err(e),
        },
        VmEffect::Stock { slot, aspect, delta, abs } => match frame.card(slot@) {
            Some(card_id) => card_stock_effect(
                bundle,
                store,
                card_id,
                aspect@,
                delta,
                abs,
                now_ms,
            ),
            None => tile_stock_effect(bundle, tile, aspect@, delta, abs),
        },
        VmEffect::Blueprint { def, target: path } => match target(frame, store, path@, now_ms) {
            Ok(found) => {
                let key = after_colons(def@);
                match bundle.blueprint_keyed(key) {
                    Some(id) => Ok(
                        EffectModel::UnlockBlueprint { blueprint_id: id, target_card_id: found.0 },
                    ),
                    None => match bundle.blueprint_spawning(key) {
                        Some(id) => Ok(
                            EffectModel::UnlockBlueprint {
                                blueprint_id: id,
                                target_card_id: found.0,
                            },
                        ),
                        None => Err(RecipeError::UnknownBlueprint { key }),
                    },
                }
            },
            Err(e) => Err(e),
        },
    }
}

/// The stock word a bound card gets.
pub open spec fn card_stock_effect<B, S: CardStore>(
    bundle: Bundle<B>,
    store: &S,
    card_id: u32,
    aspect: Seq<char>,
    delta: i64,
    abs: bool,
    now_ms: u64,
) -> Result<EffectModel, RecipeError> {
    match store.card(card_id, now_ms) {
        None => Err(RecipeError::StockCardMissing { card_id }),
        Some(c) => match bundle.packed_name(c.packed_definition) {
            None => Err(RecipeError::StockCardUndefined { card_id }),
            Some(name) => match declared_slot_bits(bundle, name, aspect) {
                None => Err(RecipeError::NoCardSlot { name, aspect }),
                Some(bits) => Ok(
                    EffectModel::SetCardStock {
                        card_id,
                        stock: stock_after(c.stock, bits.0, bits.1, delta, abs),
                    },
                ),
            },
        },
    }
}

/// The operation the synthetic tile's stock takes; slots are numbered modulo 256.
pub open spec fn tile_stock_effect<B>(
    bundle: Bundle<B>,
    tile: Option<u32>,
    aspect: Seq<char>,
    delta: i64,
    abs: bool,
) -> Result<EffectModel, RecipeError> {
    match tile {
        None => Err(RecipeError::NoTile),
        Some(def_id) => match bundle.card_with_id(def_id) {
            None => Err(RecipeError::NamelessTile),
            Some(def) => match declared_slot(bundle, def.name@, aspect) {
                None => Err(RecipeError::NoTileSlot { name: def.name@, aspect }),
                Some(i) => Ok(
                    EffectModel::ModifyTileStock {
                        slot: (i % 256) as u8,
                        op: tile_op(delta, abs).0,
                        delta: tile_op(delta, abs).1,
                    },
                ),
            },
        },
    }
}

/// Whether an effect is the one expected, or the error in words.
pub open spec fn effect_is(
    r: Result<Effect, String>,
    expected: Result<EffectModel, RecipeError>,
) -> bool {
    match (r, expected) {
        (Ok(effect), Ok(meant)) => effect@ == meant,
        (Err(text), Err(e)) => text@ == e.text(),
        _ => false,
    }
}

/// The stock word after a change of one slot.
fn changed_stock(stock: u32, shift: u8, width: u8, delta: i64, abs: bool) -> (r: u32)
    requires
        shift < 32,
    ensures
        r == stock_after(stock, shift, width, delta, abs),
{
    let field = slot_field(shift, width);
    let mask: u32 = field.mask();
    let cap: u32 = field.value_mask();
    let cur: u32 = (stock & mask) >> shift;
    let wanted: i128 = if abs {
        delta as i128
    } else {
        cur as i128 + delta as i128
    };
    let value: u32 = if wanted < 0 {
        0
    } else if wanted > cap as i128 {
        cap
    } else {
        wanted as u32
    };
    (stock & !mask) | (value << shift)
}

/// The stock write of a bound card: the new value is computed here (current stock
/// with this slot's bits replaced) and emitted as an absolute write.
fn card_stock<B, S: CardStore>(
    bundle: &Bundle<B>,
    store: &S,
    card_id: u32,
    aspect: &str,
    delta: i64,
    abs: bool,
    now_ms: u64,
) -> (r: Result<Effect, String>)
    requires
        bundle.wf(),
    ensures
        effect_is(r, card_stock_effect(*bundle, store, card_id, aspect@, delta, abs, now_ms)),
{
    let c = match store.card_at(card_id, now_ms) {
        Some(c) => c,
        None => {
            return Err(numbered("stock op: bound card ", card_id, " not found"));
        },
    };
    let name = match bundle.name_for_packed(c.packed_definition) {
        Some(name) => name,
        None => {
            return Err(numbered("stock op: card ", card_id, " packed not in bundle"));
        },
    };
    match stock_slot_bits(bundle, name, aspect) {
        Some((shift, width)) => Ok(
            Effect::SetCardStock {
                card_id,
                stock: changed_stock(c.stock, shift, width, delta, abs),
            },
        ),
        None => Err(quoted_pair("card ", name, " declares no stock slot for aspect ", aspect)),
    }
}

/// The stock operation of the synthetic tile (the zone-savable path), addressed
/// positionally when it is applied.
fn tile_stock<B>(bundle: &Bundle<B>, tile: &Option<Card>, aspect: &str, delta: i64, abs: bool) -> (r:
    Result<Effect, String>)
    ensures
        effect_is(r, tile_stock_effect(*bundle, tile_def(*tile), aspect@, delta, abs)),
{
    let tile = match tile {
        Some(tile) => tile,
        None => {
            return Err("tile stock op but no synthetic tile".to_owned());
        },
    };
    let name = match bundle.card_name(tile.def_id) {
        Some(name) => name,
        None => {
            return Err("tile def has no name".to_owned());
        },
    };
    let slot: usize = match stock_slot_for_aspect(bundle, name, aspect) {
        Some(slot) => slot,
        None => {
            return Err(quoted_pair("tile ", name, " declares no stock slot for aspect ", aspect));
        },
    };
    let wanted: i128 = delta as i128;
    let (op, size): (StockOp, i128) = if abs {
        (StockOp::Assign, wanted)
    } else if delta < 0 {
        (StockOp::Sub, -wanted)
    } else {
        (StockOp::Add, wanted)
    };
    let delta: u8 = if size < 0 {
        0
    } else if size > 255 {
        255
    } else {
        size as u8
    };
    Ok(Effect::ModifyTileStock { slot: (slot % 256) as u8, op, delta })
}

/// The definition of the synthetic tile.
pub open spec fn tile_def(tile: Option<Card>) -> Option<u32> {
    match tile {
        Some(card) => Some(card.def_id),
        None => None,
    }
}

/// One effect of a recipe, with its paths resolved.
fn translate_effect<B, S: CardStore>(
    bundle: &Bundle<B>,
    store: &S,
    frame: &Frame,
    tile: &Option<Card>,
    effect: &VmEffect,
    now_ms: u64,
) -> (r: Result<Effect, String>)
    requires
        bundle.wf(),
    ensures
        effect_is(r, effect_of(*bundle, store, *frame, tile_def(*tile), *effect, now_ms)),
{
    match effect {
        VmEffect::Destroy { slot } => match frame.card_at(slot.as_str()) {
            Some(card_id) => Ok(Effect::Destroy { card_id }),
            None => Err(quoted("destroy: ", slot.as_str(), " is not a bound card")),
        },
        VmEffect::Create { def, target } => {
            let (owner_id, container) = match resolve_target(frame, store, target.as_str(), now_ms) {
                Ok(found) => found,
                Err(e) => {
                    return Err(e);
                },
            };
            let stored = match &container {
                Some(word) => str_eq(word.as_str(), "inventory"),
                None => false,
            };
            if !stored {
                return Err(
                    quoted("create target must end in .inventory; got ", target.as_str(), ""),
                );
            }
            Ok(
                Effect::Create {
                    def_key: def_key(def.as_str()),
                    surface: INVENTORY_LAYER,
                    macro_zone: pack_macro_zone_full(owner_id, INVENTORY_LAYER, 0, 0),
                    owner_id,
                },
            )
        },
        VmEffect::Stock { slot, aspect, delta, abs } => match frame.card_at(slot.as_str()) {
            Some(card_id) => card_stock(
                bundle,
                store,
                card_id,
                aspect.as_str(),
                *delta,
                *abs,
                now_ms,
            ),
            None => tile_stock(bundle, tile, aspect.as_str(), *delta, *abs),
        },
        VmEffect::Blueprint { def, target } => {
            let (target_card_id, _) = match resolve_target(frame, store, target.as_str(), now_ms) {
                Ok(found) => found,
                Err(e) => {
                    return Err(e);
                },
            };
            // The recipe may reference the blueprint by its registry key
            // (`nd_furnace`) or by its spawned card (`blueprint_nd_furnace`).
            let key = def_key(def.as_str());
            let found = match bundle.blueprint_def_id(key.as_str()) {
                Some(id) => Some(id),
                None => bundle.blueprint_id_for_card(key.as_str()),
            };
            match found {
                Some(blueprint_id) => Ok(Effect::UnlockBlueprint { blueprint_id, target_card_id }),
                None => Err(
                    quoted(
                        "recipe unlocks unknown blueprint ",
                        key.as_str(),
                        " (no <blueprint> def)",
                    ),
                ),
            }
        },
    }
}

/// The holds of each bound card: those of all the verbs its slot was bound with.
pub open spec fn card_holds(frame: Frame, holds: Seq<(String, Hold)>) -> Map<u32, HoldKinds>
    decreases holds.len(),
{
    if holds.len() == 0 {
        Map::empty()
    } else {
        let before = card_holds(frame, holds.drop_last());
        match frame.card(holds.last().0@) {
            Some(card_id) => {
                let own = if before.contains_key(card_id) {
                    before[card_id]
                } else {
                    no_holds()
                };
                before.insert(card_id, merged(own, hold_kinds(holds.last().1)))
            },
            None => before,
        }
    }
}

/// The holds of the synthetic tile: those of the verbs on slots with no card.
pub open spec fn unplaced_holds(frame: Frame, holds: Seq<(String, Hold)>) -> Option<HoldKinds>
    decreases holds.len(),
{
    if holds.len() == 0 {
        None
    } else {
        let before = unplaced_holds(frame, holds.drop_last());
        match frame.card(holds.last().0@) {
            Some(card_id) => before,
            None => {
                let own = match before {
                    Some(kinds) => kinds,
                    None => no_holds(),
                };
                Some(merged(own, hold_kinds(holds.last().1)))
            },
        }
    }
}

/// The style of each bound card: the last one given to its slot.
pub open spec fn card_styles(frame: Frame, styles: Seq<(String, String)>) -> Map<u32, u8>
    decreases styles.len(),
{
    if styles.len() == 0 {
        Map::empty()
    } else {
        let before = card_styles(frame, styles.drop_last());
        match frame.card(styles.last().0@) {
            Some(card_id) => before.insert(card_id, style_number(styles.last().1@)),
            None => before,
        }
    }
}

/// The effects of a recipe in order, or the error of the first that has one.
pub open spec fn effects_of<B, S: CardStore>(
    bundle: Bundle<B>,
    store: &S,
    frame: Frame,
    tile: Option<u32>,
    effects: Seq<VmEffect>,
    now_ms: u64,
) -> Result<Seq<EffectModel>, RecipeError>
    decreases effects.len(),
{
    if effects.len() == 0 {
        Ok(Seq::empty())
    } else {
        match effects_of(bundle, store, frame, tile, effects.drop_last(), now_ms) {
            Ok(done) => match effect_of(bundle, store, frame, tile, effects.last(), now_ms) {
                Ok(effect) => Ok(done.push(effect)),
                Err(e) => Err(e),
            },
            Err(e) => Err(e),
        }
    }
}

/// The duration of an action: none for a negative one, else the low 32 bits.
pub open spec fn planned_duration(duration: i64) -> u32 {
    if duration < 0 {
        0
    } else {
        (duration % 0x1_0000_0000) as u32
    }
}

/// The plan a recipe's report stands for.
pub open spec fn translated<B, S: CardStore>(
    bundle: Bundle<B>,
    store: &S,
    frame: Frame,
    holds: Seq<(String, Hold)>,
    planned: PlanOutcome,
    tile: Option<u32>,
    now_ms: u64,
) -> Result<PlanModel, RecipeError> {
    match effects_of(bundle, store, frame, tile, planned.effects@, now_ms) {
        Ok(effects) => Ok(
            PlanModel {
                styles: card_styles(frame, planned.styles@),
                duration: planned_duration(planned.duration),
                effects,
                holds: card_holds(frame, holds),
                tile_holds: unplaced_holds(frame, holds),
            },
        ),
        Err(e) => Err(e),
    }
}

/// Whether a plan is the one expected, or the error in words.
pub open spec fn plan_is(
    r: Result<ActionPlan, String>,
    expected: Result<PlanModel, RecipeError>,
) -> bool {
    match (r, expected) {
        (Ok(plan), Ok(meant)) => plan@ == meant,
        (Err(text), Err(e)) => text@ == e.text(),
        _ => false,
    }
}

fn translate_duration(duration: i64) -> (r: u32)
    ensures
        r == planned_duration(duration),
{
    if duration < 0 {
        0
    } else {
        (duration % 0x1_0000_0000) as u32
    }
}

fn translate_holds(frame: &Frame, holds: &Vec<(String, Hold)>) -> (r: (
    BTreeMap<u32, HoldKinds>,
    Option<HoldKinds>,
))
    ensures
        r.0@ == card_holds(*frame, holds@),
        r.1 == unplaced_holds(*frame, holds@),
{
    let mut cards: BTreeMap<u32, HoldKinds> = BTreeMap::new();
    let mut tile: Option<HoldKinds> = None;
    for i in 0..holds.len()
        invariant
            cards@ == card_holds(*frame, holds@.take(i as int)),
            tile == unplaced_holds(*frame, holds@.take(i as int)),
    {
        let entry = &holds[i];
        let k = kinds(&entry.1);
        assert(holds@.take(i + 1).drop_last() =~= holds@.take(i as int));
        match frame.card_at(entry.0.as_str()) {
            Some(card_id) => {
                let mut own = match cards.get(&card_id) {
                    Some(own) => *own,
                    None => HoldKinds { slot_hold: false, position_hold: false, slot_share: false },
                };
                merge(&mut own, &k);
                cards.insert(card_id, own);
            },
            None => {
                let mut own = match tile {
                    Some(own) => own,
                    None => HoldKinds { slot_hold: false, position_hold: false, slot_share: false },
                };
                merge(&mut own, &k);
                tile = Some(own);
            },
        }
    }
    assert(holds@.take(holds@.len() as int) =~= holds@);
    (cards, tile)
}

fn translate_styles(frame: &Frame, styles: &Vec<(String, String)>) -> (r: BTreeMap<u32, u8>)
    ensures
        r@ == card_styles(*frame, styles@),
{
    let mut cards: BTreeMap<u32, u8> = BTreeMap::new();
    for i in 0..styles.len()
        invariant
            cards@ == card_styles(*frame, styles@.take(i as int)),
    {
        let entry = &styles[i];
        assert(styles@.take(i + 1).drop_last() =~= styles@.take(i as int));
        if let Some(card_id) = frame.card_at(entry.0.as_str()) {
            cards.insert(card_id, style_code(entry.1.as_str()));
        }
    }
    assert(styles@.take(styles@.len() as int) =~= styles@);
    cards
}

/// What the recipe machine reported, as an [`ActionPlan`]. Holds split into
/// per-card and the synthetic tile's (`tile_holds`); effects map one to one with
/// owner-walk target resolution; styles and duration carry through.
pub fn translate<B, S: CardStore>(
    bundle: &Bundle<B>,
    store: &S,
    frame: &Frame,
    holds: &Vec<(String, Hold)>,
    planned: &PlanOutcome,
    tile: &Option<Card>,
    now_ms: u64,
) -> (r: Result<ActionPlan, String>)
    requires
        bundle.wf(),
    ensures
        plan_is(
            r,
            translated(*bundle, store, *frame, holds@, *planned, tile_def(*tile), now_ms),
        ),
{
    let (card_holds, tile_holds) = translate_holds(frame, holds);
    let styles = translate_styles(frame, &planned.styles);
    let ghost model = |e: Effect| e@;
    let ghost all = planned.effects@;
    let ghost def = tile_def(*tile);
    let mut effects: Vec<Effect> = Vec::new();
    proof {
        assert(effects@.map_values(model) =~= Seq::<EffectModel>::empty());
    }
    for i in 0..planned.effects.len()
        invariant
            bundle.wf(),
            model == (|e: Effect| e@),
            all == planned.effects@,
            def == tile_def(*tile),
            effects_of(*bundle, store, *frame, def, all.take(i as int), now_ms) == Ok::<
                Seq<EffectModel>,
                RecipeError,
            >(effects@.map_values(model)),
    {
        let ghost before = effects@;
        proof {
            assert(all.take(i + 1).drop_last() =~= all.take(i as int));
            if effects_of(*bundle, store, *frame, def, all.take(i + 1), now_ms) is Err {
                lemma_effects_stop(*bundle, store, *frame, def, all, now_ms, i + 1);
            }
        }
        match translate_effect(bundle, store, frame, tile, &planned.effects[i], now_ms) {
            Ok(effect) => {
                effects.push(effect);
                assert(effects@.map_values(model) =~= before.map_values(model).push(effect@));
            },
            Err(e) => {
                return Err(e);
            },
        }
    }
    assert(all.take(all.len() as int) =~= all);
    Ok(
        ActionPlan {
            styles,
            duration: translate_duration(planned.duration),
            effects,
            holds: card_holds,
            tile_holds,
        },
    )
}

/// Effects that fail on the way fail as a whole.
proof fn lemma_effects_stop<B, S: CardStore>(
    bundle: Bundle<B>,
    store: &S,
    frame: Frame,
    tile: Option<u32>,
    effects: Seq<VmEffect>,
    now_ms: u64,
    n: int,
)
    requires
        0 <= n <= effects.len(),
        effects_of(bundle, store, frame, tile, effects.take(n), now_ms) is Err,
    ensures
        effects_of(bundle, store, frame, tile, effects, now_ms) == effects_of(
            bundle,
            store,
            frame,
            tile,
            effects.take(n),
            now_ms,
        ),
    decreases effects.len(),
{
    if n < effects.len() {
        assert(effects.drop_last().take(n) =~= effects.take(n));
        lemma_effects_stop(bundle, store, frame, tile, effects.drop_last(), now_ms, n);
    } else {
        assert(effects.take(n) =~= effects);
    }
}

/// The synthetic tile a proposal stands on: its packed definition re-id'd, its two
/// zone stocks as they are.
pub open spec fn tile_card<B>(bundle: Bundle<B>, packed: u16, s0: u8, s1: u8) -> Result<
    CardModel,
    RecipeError,
> {
    match bundle.packed_name(packed) {
        None => Err(RecipeError::UnknownTilePacked { packed }),
        Some(name) => match bundle.card_named(name) {
            None => Err(RecipeError::UnknownTile { name }),
            Some(def) => Ok(CardModel { def_id: def.def_id, stock: seq![s0 as i64, s1 as i64] }),
        },
    }
}

/// The synthetic tile as a typed card.
pub fn synthetic_card<B>(bundle: &Bundle<B>, packed: u16, s0: u8, s1: u8) -> (r: Result<Card, String>)
    ensures
        match (r, tile_card(*bundle, packed, s0, s1)) {
            (Ok(card), Ok(meant)) => card@ == meant,
            (Err(text), Err(e)) => text@ == e.text(),
            _ => false,
        },
{
    let name = match bundle.name_for_packed(packed) {
        Some(name) => name,
        None => {
            let mut text = "tile packed ".to_owned();
            text.append(hex(packed).as_str());
            text.append(" not in DSL bundle");
            return Err(text);
        },
    };
    match bundle.card_def_id(name) {
        Some(def_id) => {
            let card = Card { def_id, stock: vec![s0 as i64, s1 as i64] };
            assert(card.stock@ =~= seq![s0 as i64, s1 as i64]);
            Ok(card)
        },
        None => Err(quoted("tile ", name, " not in DSL bundle")),
    }
}

/// A bound card as a recipe reads it: its live stock decoded by the slots of its
/// definition.
pub open spec fn card_bound<B, S: CardStore>(
    bundle: Bundle<B>,
    store: &S,
    card_id: u32,
    now_ms: u64,
) -> Option<CardModel> {
    match store.card(card_id, now_ms) {
        None => None,
        Some(c) => match bundle.packed_name(c.packed_definition) {
            None => None,
            Some(name) => match bundle.card_named(name) {
                None => None,
                Some(def) => Some(
                    CardModel { def_id: def.def_id, stock: decoded_stock(bundle, name, c.stock) },
                ),
            },
        },
    }
}

/// Bridge a bound card id to a typed card: packed definition to name to catalog
/// entry. The per-instance stock word is decoded per the definition's stock schema,
/// so that a card's live stock aspects read in matching, not just its static
/// defaults. `None` where the card, its name or its definition is missing.
pub fn bound_card<B, S: CardStore>(bundle: &Bundle<B>, store: &S, card_id: u32, now_ms: u64) -> (r:
    Option<Card>)
    requires
        bundle.wf(),
    ensures
        match r {
            Some(card) => card_bound(*bundle, store, card_id, now_ms) == Some(card@),
            None => card_bound(*bundle, store, card_id, now_ms) is None,
        },
{
    let c = match store.card_at(card_id, now_ms) {
        Some(c) => c,
        None => {
            return None;
        },
    };
    let name = match bundle.name_for_packed(c.packed_definition) {
        Some(name) => name,
        None => {
            return None;
        },
    };
    match bundle.card_def_id(name) {
        Some(def_id) => Some(Card { def_id, stock: stock_to_vec(bundle, name, c.stock) }),
        None => None,
    }
}

/// The card lookup a recipe machine works with: the bound cards of a store at a time.
pub struct Lookup<'a, B, S> {
    pub bundle: &'a Bundle<B>,
    pub store: &'a S,
    pub now_ms: u64,
}

impl<'a, B, S: CardStore> Lookup<'a, B, S> {
    /// The card behind a bound id, as [`bound_card`] gives it.
    pub fn card(&self, card_id: u32) -> (r: Option<Card>)
        requires
            self.bundle.wf(),
        ensures
            match r {
                Some(card) => card_bound(*self.bundle, self.store, card_id, self.now_ms) == Some(
                    card@,
                ),
                None => card_bound(*self.bundle, self.store, card_id, self.now_ms) is None,
            },
    {
        bound_card(self.bundle, self.store, card_id, self.now_ms)
    }
}

/// Whether a verdict is accepted as expected: the machine's own error as it is, the
/// refusal in words, or the holds of the match.
pub open spec fn accepted(
    recipe_name: Seq<char>,
    matched: Result<MatchOutcome, String>,
    r: Result<Vec<(String, Hold)>, String>,
) -> bool {
    match matched {
        Err(text) => r == Err::<Vec<(String, Hold)>, String>(text),
        Ok(outcome) => if outcome.matched {
            r == Ok::<Vec<(String, Hold)>, String>(outcome.holds)
        } else {
            r matches Err(text) && text@ == (RecipeError::InputNotSatisfied {
                name: recipe_name,
            }).text()
        },
    }
}

/// The holds of a recipe whose `@input` matched; an error if it did not.
pub fn accept(recipe_name: &str, matched: Result<MatchOutcome, String>) -> (r: Result<
    Vec<(String, Hold)>,
    String,
>)
    ensures
        accepted(recipe_name@, matched, r),
{
    match matched {
        Err(text) => Err(text),
        Ok(outcome) => if outcome.matched {
            Ok(outcome.holds)
        } else {
            Err(quoted("recipe ", recipe_name, " input not satisfied by bindings"))
        },
    }
}

/// What is read before the machine starts: the recipe must be loaded, and the
/// synthetic tile, where there is one, must be defined.
pub open spec fn begun<B>(
    bundle: Bundle<B>,
    recipe_name: Seq<char>,
    synthetic: Option<(u16, (u8, u8))>,
) -> Result<(Recipe<B>, Option<CardModel>), RecipeError> {
    match bundle.recipe_named(recipe_name) {
        None => Err(RecipeError::UnknownRecipe { name: recipe_name }),
        Some(recipe) => match synthetic {
            None => Ok((recipe, None)),
            Some(given) => match tile_card(bundle, given.0, given.1.0, given.1.1) {
                Ok(card) => Ok((recipe, Some(card))),
                Err(e) => Err(e),
            },
        },
    }
}

/// The view of an optional card.
pub open spec fn tile_view(tile: Option<Card>) -> Option<CardModel> {
    match tile {
        Some(card) => Some(card@),
        None => None,
    }
}

/// What follows from the machine's verdict and report.
pub open spec fn concluded<B, S: CardStore>(
    bundle: Bundle<B>,
    store: &S,
    recipe_name: Seq<char>,
    frame: Frame,
    tile: Option<u32>,
    matched: Result<MatchOutcome, String>,
    planned: Result<PlanOutcome, String>,
    now_ms: u64,
    r: Result<ActionPlan, String>,
) -> bool {
    match matched {
        Err(text) => r == Err::<ActionPlan, String>(text),
        Ok(outcome) => if !outcome.matched {
            r matches Err(text) && text@ == (RecipeError::InputNotSatisfied {
                name: recipe_name,
            }).text()
        } else {
            match planned {
                Err(text) => r == Err::<ActionPlan, String>(text),
                Ok(report) => plan_is(
                    r,
                    translated(bundle, store, frame, outcome.holds@, report, tile, now_ms),
                ),
            }
        },
    }
}

/// Whether a recipe machine was run as it should be, and `r` is what follows: it built
/// its frame for the recipe, the root, the bindings and the tile, with the lookup over
/// the store; it matched the body of the `input` hook on the state it had built; and,
/// after a match, it planned with the body of the `output` hook on the state the match
/// left.
pub open spec fn evaluated<
    B,
    S: CardStore,
    V,
    F: FnOnce(&Bundle<B>, &Recipe<B>, u32, &[Vec<u32>], &Option<Card>, &Lookup<B, S>) -> (Frame, V),
    M: FnOnce(&[B], V, &Bundle<B>) -> (V, Result<MatchOutcome, String>),
    P: FnOnce(&[B], V, &Bundle<B>) -> Result<PlanOutcome, String>,
>(
    lookup: Lookup<B, S>,
    recipe: Recipe<B>,
    root: u32,
    bindings: &[Vec<u32>],
    tile: Option<Card>,
    build_frame: F,
    built: (Frame, V),
    input: &[B],
    match_input: M,
    matched: (V, Result<MatchOutcome, String>),
    output: &[B],
    plan_output: P,
    planned: Result<PlanOutcome, String>,
    r: Result<ActionPlan, String>,
) -> bool {
    &&& call_ensures(
        build_frame,
        (lookup.bundle, &recipe, root, bindings, &tile, &lookup),
        built,
    )
    &&& input@ == recipe.hook_body("input"@)
    &&& call_ensures(match_input, (input, built.1, lookup.bundle), matched)
    &&& output@ == recipe.hook_body("output"@)
    &&& (matched.1 matches Ok(outcome) && outcome.matched) ==> call_ensures(
        plan_output,
        (output, matched.0, lookup.bundle),
        planned,
    )
    &&& concluded(
        *lookup.bundle,
        lookup.store,
        recipe.name@,
        built.0,
        tile_def(tile),
        matched.1,
        planned,
        lookup.now_ms,
        r,
    )
}

/// Evaluate `recipe_name`'s recipe against the card `store` and bound cards,
/// returning the [`ActionPlan`] to apply. Errors if the recipe is unknown or its
/// `@input` predicates don't hold against the bindings. `now_ms` is the read time
/// for `store.card_at`.
///
/// The recipe machine comes in as three calls: `build_frame` places the root, the
/// bindings and the synthetic tile for the recipe (cards as the lookup gives them)
/// and hands over its state; `match_input` and `plan_output` run the body of the
/// recipe's `input` and `output` hook on that state, an empty body where the recipe
/// has no such hook. `plan_output` is called only after a match.
pub fn run<
    B,
    S: CardStore,
    V,
    F: FnOnce(&Bundle<B>, &Recipe<B>, u32, &[Vec<u32>], &Option<Card>, &Lookup<B, S>) -> (Frame, V),
    M: FnOnce(&[B], V, &Bundle<B>) -> (V, Result<MatchOutcome, String>),
    P: FnOnce(&[B], V, &Bundle<B>) -> Result<PlanOutcome, String>,
>(
    bundle: &Bundle<B>,
    store: &S,
    recipe_name: &str,
    root: u32,
    bindings: &[Vec<u32>],
    synthetic: Option<(u16, (u8, u8))>,
    now_ms: u64,
    build_frame: F,
    match_input: M,
    plan_output: P,
) -> (r: Result<ActionPlan, String>)
    requires
        bundle.wf(),
        forall|recipe: Recipe<B>, tile: Option<Card>| #[trigger]
            call_requires(
                build_frame,
                (bundle, &recipe, root, bindings, &tile, &(Lookup { bundle, store, now_ms })),
            ),
        forall|body: &[B], v: V| #[trigger] call_requires(match_input, (body, v, bundle)),
        forall|body: &[B], v: V| #[trigger] call_requires(plan_output, (body, v, bundle)),
    ensures
        match begun(*bundle, recipe_name@, synthetic) {
            Err(e) => r matches Err(text) && text@ == e.text(),
            Ok(known) => exists|
                tile: Option<Card>,
                built: (Frame, V),
                input: &[B],
                matched: (V, Result<MatchOutcome, String>),
                output: &[B],
                planned: Result<PlanOutcome, String>,
            |
                tile_view(tile) == known.1 && #[trigger] evaluated(
                    Lookup { bundle, store, now_ms },
                    known.0,
                    root,
                    bindings,
                    tile,
                    build_frame,
                    built,
                    input,
                    match_input,
                    matched,
                    output,
                    plan_output,
                    planned,
                    r,
                ),
        },
{
    let recipe = match bundle.recipe(recipe_name) {
        Some(recipe) => recipe,
        None => {
            return Err(quoted("DSL recipe ", recipe_name, " not found"));
        },
    };
    let tile: Option<Card> = match synthetic {
        Some((packed, (s0, s1))) => match synthetic_card(bundle, packed, s0, s1) {
            Ok(card) => Some(card),
            Err(e) => {
                return Err(e);
            },
        },
        None => None,
    };
    let lookup = Lookup { bundle, store, now_ms };
    let ghost start = begun(*bundle, recipe_name@, synthetic);
    assert(start matches Ok(known) && known.0 == *recipe && known.1 == tile_view(tile));
    let (frame, state) = build_frame(bundle, recipe, root, bindings, &tile, &lookup);
    let ghost built = (frame, state);
    let input = recipe.body_at("input");
    let output = recipe.body_at("output");
    let (state, matched) = match_input(input, state, bundle);
    let ghost verdict = (state, matched);
    let ghost unused: Result<PlanOutcome, String> = arbitrary();
    let holds = match accept(recipe_name, matched) {
        Ok(holds) => holds,
        Err(e) => {
            assert(evaluated(
                lookup,
                *recipe,
                root,
                bindings,
                tile,
                build_frame,
                built,
                input,
                match_input,
                verdict,
                output,
                plan_output,
                unused,
                Err(e),
            ));
            return Err(e);
        },
    };
    let planned = plan_output(output, state, bundle);
    let ghost report = planned;
    let r = match planned {
        Ok(planned) => translate(bundle, store, &frame, &holds, &planned, &tile, now_ms),
        Err(e) => Err(e),
    };
    assert(evaluated(
        lookup,
        *recipe,
        root,
        bindings,
        tile,
        build_frame,
        built,
        input,
        match_input,
        verdict,
        output,
        plan_output,
        report,
        r,
    ));
    r
}

} // verus!
