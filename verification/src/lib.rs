//! Card placement, stacking and recipe rules shared by every side of the game.
//!
//! - [`codec`]: the bit layout of a card row, packed addresses, the placement
//!   enum, and the host/join stacking test.
//! - [`dsl`]: the loaded definitions a recipe runs against, and lookups over the
//!   flag and type registries.
//! - [`state`]: reads through a card store: binding validation, stack moves and
//!   chain splicing.
//! - [`rules`]: recipe evaluation results turned into an action plan, and the
//!   definition-level stacking bits.

pub mod codec;
pub mod dsl;
pub mod rules;
pub mod sequences;
pub mod state;
pub mod text;
