//! Verified core logic of the phire rhythm-game engine: chart text scanning,
//! judgement bookkeeping, text editing, numeral formatting and small buffers.

pub mod line;
pub mod text;
pub mod pec;
pub mod pec_parse;
pub mod input;
pub mod judge;
pub mod health;
pub mod numerals;
pub mod character;
pub mod ring;
pub mod render;
pub mod avc;
pub mod game;
