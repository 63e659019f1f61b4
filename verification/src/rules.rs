//! Gameplay rules on top of the definitions and the card state.

pub mod dsl_recipe;
pub mod effect_laws;
pub mod recipe_laws;
pub mod stacking;
pub mod target_laws;
