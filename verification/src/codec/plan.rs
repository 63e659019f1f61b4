//! The action plan: what a consumer applies once a recipe has run.

use std::collections::BTreeMap;
use vstd::prelude::*;

verus! {

/// The holds an action keeps on one card while it runs.
#[derive(Clone, Copy, Debug, PartialEq, Eq, Structural)]
pub struct HoldKinds {
    /// The card is taken exclusively.
    pub slot_hold: bool,
    /// The card may not move.
    pub position_hold: bool,
    /// The card is taken, shared with other actions.
    pub slot_share: bool,
}

/// How a tile stock slot changes.
#[derive(Clone, Copy, Debug, PartialEq, Eq, Structural)]
pub enum StockOp {
    Assign,
    Sub,
    Add,
}

/// One change an action makes when it completes.
#[derive(Debug, PartialEq, Eq)]
pub enum Effect {
    Destroy { card_id: u32 },
    Create { def_key: String, surface: u8, macro_zone: u64, owner_id: u32 },
    SetCardStock { card_id: u32, stock: u32 },
    ModifyTileStock { slot: u8, op: StockOp, delta: u8 },
    UnlockBlueprint { blueprint_id: u32, target_card_id: u32 },
}

/// What an [`Effect`] says, with its text as characters.
pub enum EffectModel {
    Destroy { card_id: u32 },
    Create { def_key: Seq<char>, surface: u8, macro_zone: u64, owner_id: u32 },
    SetCardStock { card_id: u32, stock: u32 },
    ModifyTileStock { slot: u8, op: StockOp, delta: u8 },
    UnlockBlueprint { blueprint_id: u32, target_card_id: u32 },
}

impl View for Effect {
    type V = EffectModel;

    open spec fn view(&self) -> EffectModel {
        match *self {
            Effect::Destroy { card_id } => EffectModel::Destroy { card_id },
            Effect::Create { def_key, surface, macro_zone, owner_id } => EffectModel::Create {
                def_key: def_key@,
                surface,
                macro_zone,
                owner_id,
            },
            Effect::SetCardStock { card_id, stock } => EffectModel::SetCardStock {
                card_id,
                stock,
            },
            Effect::ModifyTileStock { slot, op, delta } => EffectModel::ModifyTileStock {
                slot,
                op,
                delta,
            },
            Effect::UnlockBlueprint { blueprint_id, target_card_id } => {
                EffectModel::UnlockBlueprint { blueprint_id, target_card_id }
            },
        }
    }
}

/// The result of running a recipe: the styles and holds of the bound cards, the
/// holds of the synthetic tile, how long the action takes, and its effects.
#[derive(Debug, PartialEq, Eq)]
pub struct ActionPlan {
    pub styles: BTreeMap<u32, u8>,
    pub duration: u32,
    pub effects: Vec<Effect>,
    pub holds: BTreeMap<u32, HoldKinds>,
    pub tile_holds: Option<HoldKinds>,
}

/// What an [`ActionPlan`] says.
#[verifier::ext_equal]
pub struct PlanModel {
    pub styles: Map<u32, u8>,
    pub duration: u32,
    pub effects: Seq<EffectModel>,
    pub holds: Map<u32, HoldKinds>,
    pub tile_holds: Option<HoldKinds>,
}

impl View for ActionPlan {
    type V = PlanModel;

    open spec fn view(&self) -> PlanModel {
        PlanModel {
            styles: self.styles@,
            duration: self.duration,
            effects: self.effects@.map_values(|e: Effect| e@),
            holds: self.holds@,
            tile_holds: self.tile_holds,
        }
    }
}

} // verus!
