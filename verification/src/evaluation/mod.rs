//! Evaluation of positions.
pub mod parameters;
pub mod topaz_eval;
