//! Conversion of Standard MIDI Files into piecewise formulas for a graphing
//! calculator, with the tempo arithmetic, note reduction, soundfont binding and
//! text encoding verified.

pub mod timing;
pub mod error;
pub mod types;
pub mod smf;
pub mod notes;
pub mod parser;
pub mod text;
pub mod encoder;
pub mod soundfonts;
pub mod cli;
pub mod config;
pub mod processor;
