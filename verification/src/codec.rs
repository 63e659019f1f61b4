//! Bit packing and flag layout: pure encoding logic.

pub mod flags;
pub mod packed;
pub mod plan;
pub mod card_model;
pub mod stack_laws;
pub mod stacking;
pub mod word_laws;
