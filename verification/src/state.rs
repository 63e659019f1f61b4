//! Reads through a card store: binding validation and stack movement.

pub mod binding_laws;
pub mod chain;
pub mod drop_laws;
pub mod order_laws;
pub mod place_laws;
pub mod rank_laws;
pub mod reason_laws;
pub mod recipe_state;
pub mod row_laws;
pub mod run_laws;
pub mod splice;
pub mod splice_laws;
pub mod stack;
