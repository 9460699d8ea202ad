//! A library implementing the rules for Tak.
pub mod evaluation;
pub mod natural;
pub mod playtak_chat;
pub mod position;
pub mod ptn;
pub mod text;
