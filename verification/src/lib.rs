//! A floating Chinese-to-English input bar: the verified library behind it.

pub mod style;
pub mod text;
pub mod rank;
pub mod app;
pub mod autostart;
pub mod config;
pub mod engine;
pub mod hotkey;
pub mod inject;
pub mod lattice;
pub mod lexicon;
pub mod picks;
pub mod pinyin;
pub mod update;
pub mod userdict;
